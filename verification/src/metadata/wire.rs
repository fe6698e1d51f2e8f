//! The Thrift compact encoding seen from the writer's side: what bytes a
//! value becomes, and that reading or passing over those bytes does what
//! the value asks for.

use crate::error::ErrorView;
use crate::metadata::thrift::{
    FieldHeader, TType, ThriftState, binary_step, field_header_step, i16_step, i32_step, i64_step,
    i8_step, lemma_varint_stands, list_header_step, map_header_step, skip_element_step,
    skip_elements_step, skip_fields_step, skip_pairs_step, skip_step, string_step, type_of_code,
    varint_encode, zigzag_encode,
};
use crate::utf8::text_of;
use vstd::prelude::*;

verus! {

/// Whether the bytes `s` come next.
pub open spec fn comes_next(st: ThriftState, s: Seq<u8>) -> bool {
    &&& st.pos + s.len() <= st.bytes.len() <= usize::MAX
    &&& st.bytes.subrange(st.pos as int, (st.pos + s.len()) as int) == s
}

/// Of two runs of bytes in a row the second comes next once the first was
/// consumed.
pub proof fn lemma_next_after(st: ThriftState, a: Seq<u8>, b: Seq<u8>, later: ThriftState)
    requires
        comes_next(st, a + b),
        later.bytes == st.bytes,
        later.pos == st.pos + a.len(),
    ensures
        comes_next(st, a),
        comes_next(later, b),
{
    let whole = st.bytes.subrange(st.pos as int, (st.pos + (a + b).len()) as int);
    assert(st.bytes.subrange(st.pos as int, (st.pos + a.len()) as int) =~= whole.subrange(
        0,
        a.len() as int,
    ));
    assert((a + b).subrange(0, a.len() as int) =~= a);
    assert(st.bytes.subrange(later.pos as int, (later.pos + b.len()) as int) =~= whole.subrange(
        a.len() as int,
        (a + b).len() as int,
    ));
    assert((a + b).subrange(a.len() as int, (a + b).len() as int) =~= b);
}

/// The code of a type.
pub open spec fn code_of(t: TType) -> u8 {
    match t {
        TType::Stop => 0,
        TType::BoolTrue => 1,
        TType::BoolFalse => 2,
        TType::I8 => 3,
        TType::I16 => 4,
        TType::I32 => 5,
        TType::I64 => 6,
        TType::Double => 7,
        TType::Binary => 8,
        TType::List => 9,
        TType::SetOf => 10,
        TType::MapOf => 11,
        TType::Struct => 12,
    }
}

/// Every code stands for its type, whatever the high half of the byte.
pub proof fn lemma_code_reads_as_its_type(t: TType, high: u8)
    requires
        high < 16,
    ensures
        type_of_code((high * 16 + code_of(t)) as u8) == Ok::<TType, ErrorView>(t),
{
}

/// The bytes of a signed number.
pub open spec fn number_bytes(n: i64) -> Seq<u8> {
    varint_encode(zigzag_encode(n) as nat)
}

/// The bytes of a byte string.
pub open spec fn string_bytes(s: Seq<u8>) -> Seq<u8> {
    varint_encode(s.len()) + s
}

/// The front of a list or set: short where the count is below fifteen.
pub open spec fn list_front(of: TType, count: nat) -> Seq<u8> {
    if count < 15 {
        seq![(count * 16 + code_of(of)) as u8]
    } else {
        seq![(15 * 16 + code_of(of)) as u8] + varint_encode(count)
    }
}

/// The front of a map. An empty one has no types.
pub open spec fn map_front(keys: TType, values: TType, count: nat) -> Seq<u8> {
    if count == 0 {
        seq![0u8]
    } else {
        varint_encode(count) + seq![(code_of(keys) * 16 + code_of(values)) as u8]
    }
}

/// The front of a field: the distance from the field before where that is
/// between one and fifteen, else the id itself.
pub open spec fn field_front(last: i16, id: i16, t: TType) -> Seq<u8> {
    if 1 <= id - last <= 15 {
        seq![((id - last) * 16 + code_of(t)) as u8]
    } else {
        seq![code_of(t)] + number_bytes(id as i64)
    }
}

/// A number reads back as it was written.
pub proof fn lemma_numbers_read_back(st: ThriftState, n: i64)
    requires
        comes_next(st, number_bytes(n)),
    ensures
        i64_step(st) == (Ok::<i64, ErrorView>(n), st.advance(number_bytes(n).len())),
        i32::MIN <= n <= i32::MAX ==> i32_step(st) == (
            Ok::<i32, ErrorView>(n as i32),
            st.advance(number_bytes(n).len()),
        ),
        i16::MIN <= n <= i16::MAX ==> i16_step(st) == (
            Ok::<i16, ErrorView>(n as i16),
            st.advance(number_bytes(n).len()),
        ),
        !(i32::MIN <= n <= i32::MAX) ==> i32_step(st).0 is Err,
        !(i16::MIN <= n <= i16::MAX) ==> i16_step(st).0 is Err,
{
    lemma_varint_stands(st, zigzag_encode(n));
    crate::metadata::thrift::lemma_zigzag_roundtrip(n);
}

/// A one-byte number is the two's complement of its byte.
pub proof fn lemma_bytes_read_back(st: ThriftState, n: i8)
    requires
        comes_next(
            st,
            seq![
                if n >= 0 {
                    n as u8
                } else {
                    (n + 256) as u8
                },
            ],
        ),
    ensures
        i8_step(st) == (Ok::<i8, ErrorView>(n), st.advance(1)),
{
    let s = seq![
        if n >= 0 {
            n as u8
        } else {
            (n + 256) as u8
        },
    ];
    assert(st.bytes.subrange(st.pos as int, (st.pos + 1) as int)[0] == s[0]);
}

/// A byte string reads back as it was written.
pub proof fn lemma_strings_read_back(st: ThriftState, s: Seq<u8>)
    requires
        comes_next(st, string_bytes(s)),
    ensures
        binary_step(st) == (Ok::<Seq<u8>, ErrorView>(s), st.advance(string_bytes(s).len())),
        text_of(s) matches Some(text) ==> string_step(st) == (
            Ok::<Seq<char>, ErrorView>(text),
            st.advance(string_bytes(s).len()),
        ),
        text_of(s) is None ==> string_step(st).0 is Err,
{
    let front = varint_encode(s.len());
    let mid = st.advance(front.len());
    lemma_next_after(st, front, s, mid);
    lemma_varint_stands(st, s.len() as u64);
    assert(mid.advance(s.len()) == st.advance(string_bytes(s).len()));
}

/// The front of a list reads back as it was written.
pub proof fn lemma_list_fronts_read_back(st: ThriftState, of: TType, count: nat)
    requires
        count <= u32::MAX,
        comes_next(st, list_front(of, count)),
    ensures
        list_header_step(st) == (
            Ok::<(TType, u32), ErrorView>((of, count as u32)),
            st.advance(list_front(of, count).len()),
        ),
{
    if count < 15 {
        assert(st.bytes.subrange(st.pos as int, (st.pos + 1) as int)[0] == list_front(of, count)[0]);
        lemma_code_reads_as_its_type(of, count as u8);
    } else {
        let first = seq![(15 * 16 + code_of(of)) as u8];
        lemma_next_after(st, first, varint_encode(count), st.advance(1));
        assert(st.bytes.subrange(st.pos as int, (st.pos + 1) as int)[0] == first[0]);
        lemma_code_reads_as_its_type(of, 15);
        lemma_varint_stands(st.advance(1), count as u64);
        assert(st.advance(1).advance(varint_encode(count).len()) == st.advance(
            list_front(of, count).len(),
        ));
    }
}

/// The front of a map reads back as it was written.
pub proof fn lemma_map_fronts_read_back(st: ThriftState, keys: TType, values: TType, count: nat)
    requires
        count <= u32::MAX,
        comes_next(st, map_front(keys, values, count)),
    ensures
        count > 0 ==> map_header_step(st) == (
            Ok::<(TType, TType, u32), ErrorView>((keys, values, count as u32)),
            st.advance(map_front(keys, values, count).len()),
        ),
        count == 0 ==> (map_header_step(st) matches (Ok((_, _, n)), next) && n == 0 && next
            == st.advance(1)),
{
    if count == 0 {
        assert(varint_encode(0) =~= seq![0u8]);
        lemma_varint_stands(st, 0);
    } else {
        let front = varint_encode(count);
        let types = seq![(code_of(keys) * 16 + code_of(values)) as u8];
        let mid = st.advance(front.len());
        lemma_next_after(st, front, types, mid);
        lemma_varint_stands(st, count as u64);
        assert(mid.bytes.subrange(mid.pos as int, (mid.pos + 1) as int)[0] == types[0]);
        lemma_code_reads_as_its_type(keys, 0);
        lemma_code_reads_as_its_type(values, 0);
        assert(mid.advance(1) == st.advance(map_front(keys, values, count).len()));
    }
}

/// The front of a field reads back as it was written, and the next distance
/// counts from its id.
pub proof fn lemma_field_fronts_read_back(st: ThriftState, id: i16, t: TType)
    requires
        t != TType::Stop,
        comes_next(st, field_front(st.last_field_id, id, t)),
    ensures
        field_header_step(st) == (
            Ok::<Option<FieldHeader>, ErrorView>(Some(FieldHeader { ttype: t, id })),
            ThriftState {
                last_field_id: id,
                ..st.advance(field_front(st.last_field_id, id, t).len())
            },
        ),
{
    let last = st.last_field_id;
    if 1 <= id - last <= 15 {
        assert(st.bytes.subrange(st.pos as int, (st.pos + 1) as int)[0] == field_front(
            last,
            id,
            t,
        )[0]);
        lemma_code_reads_as_its_type(t, (id - last) as u8);
    } else {
        let first = seq![code_of(t)];
        lemma_next_after(st, first, number_bytes(id as i64), st.advance(1));
        assert(st.bytes.subrange(st.pos as int, (st.pos + 1) as int)[0] == first[0]);
        lemma_code_reads_as_its_type(t, 0);
        lemma_numbers_read_back(st.advance(1), id as i64);
    }
}

/// A zero byte ends a struct.
pub proof fn lemma_zero_ends_a_struct(st: ThriftState)
    requires
        comes_next(st, seq![0u8]),
    ensures
        field_header_step(st) == (Ok::<Option<FieldHeader>, ErrorView>(None), st.advance(1)),
{
    assert(st.bytes.subrange(st.pos as int, (st.pos + 1) as int)[0] == 0);
}

/// A value of any type. The entries of a map are its keys, each with its
/// value behind it.
pub enum Value {
    Flag { on: bool },
    Byte { byte: u8 },
    I16 { value: i64 },
    I32 { value: i64 },
    I64 { value: i64 },
    Double { bytes: Seq<u8> },
    Binary { bytes: Seq<u8> },
    List { of: TType, items: Seq<Value> },
    SetOf { of: TType, items: Seq<Value> },
    MapOf { from: TType, to: TType, entries: Seq<Value> },
    Struct { ids: Seq<i16>, values: Seq<Value> },
}

impl Value {
    /// The type of the value.
    pub open spec fn ttype(self) -> TType {
        match self {
            Value::Flag { on } => if on {
                TType::BoolTrue
            } else {
                TType::BoolFalse
            },
            Value::Byte { .. } => TType::I8,
            Value::I16 { .. } => TType::I16,
            Value::I32 { .. } => TType::I32,
            Value::I64 { .. } => TType::I64,
            Value::Double { .. } => TType::Double,
            Value::Binary { .. } => TType::Binary,
            Value::List { .. } => TType::List,
            Value::SetOf { .. } => TType::SetOf,
            Value::MapOf { .. } => TType::MapOf,
            Value::Struct { .. } => TType::Struct,
        }
    }

    /// Whether the value may stand in a container of `t`s. Either code of a
    /// flag stands for flags there.
    pub open spec fn is_a(self, t: TType) -> bool {
        if self is Flag {
            t == TType::BoolTrue || t == TType::BoolFalse
        } else {
            t == self.ttype()
        }
    }
}

/// Whether a value can be written: what it counts can be counted, and its
/// containers hold what they say.
pub open spec fn sound(v: Value) -> bool
    decreases v, 0nat,
{
    match v {
        Value::Double { bytes } => bytes.len() == 8,
        Value::List { of, items } => items.len() <= u32::MAX && all_sound(items, 0) && (forall|
            i: int,
        |
            0 <= i < items.len() ==> (#[trigger] items[i]).is_a(of)),
        Value::SetOf { of, items } => items.len() <= u32::MAX && all_sound(items, 0) && (forall|
            i: int,
        |
            0 <= i < items.len() ==> (#[trigger] items[i]).is_a(of)),
        Value::MapOf { from, to, entries } => entries.len() % 2 == 0 && entries.len() / 2
            <= u32::MAX && all_sound(entries, 0) && (forall|i: int|
            0 <= i < entries.len() ==> (#[trigger] entries[i]).is_a(
                if i % 2 == 0 {
                    from
                } else {
                    to
                },
            )),
        Value::Struct { ids, values } => ids.len() == values.len() && all_sound(values, 0),
        _ => true,
    }
}

/// Whether the values from `i` on can be written.
pub open spec fn all_sound(values: Seq<Value>, i: nat) -> bool
    decreases values, values.len() - i,
{
    i >= values.len() || (sound(values[i as int]) && all_sound(values, i + 1))
}

/// The bytes of a value as a field holds it. A flag is told by its type.
pub open spec fn value_bytes(v: Value) -> Seq<u8>
    decreases v, 0nat,
{
    match v {
        Value::Flag { .. } => Seq::empty(),
        Value::Byte { byte } => seq![byte],
        Value::I16 { value } | Value::I32 { value } | Value::I64 { value } => number_bytes(value),
        Value::Double { bytes } => bytes,
        Value::Binary { bytes } => string_bytes(bytes),
        Value::List { of, items } | Value::SetOf { of, items } => list_front(of, items.len())
            + items_bytes(items, 0),
        Value::MapOf { from, to, entries } => map_front(from, to, entries.len() / 2)
            + items_bytes(entries, 0),
        Value::Struct { ids, values } => fields_bytes(ids, values, 0, 0),
    }
}

/// The bytes of a value as a container holds it. A flag takes one byte.
pub open spec fn item_bytes(v: Value) -> Seq<u8>
    decreases v, 1nat,
{
    match v {
        Value::Flag { on } => seq![
            if on {
                1u8
            } else {
                2u8
            },
        ],
        _ => value_bytes(v),
    }
}

/// The bytes of the items from `i` on.
pub open spec fn items_bytes(items: Seq<Value>, i: nat) -> Seq<u8>
    decreases items, items.len() - i,
{
    if i >= items.len() {
        Seq::empty()
    } else {
        item_bytes(items[i as int]) + items_bytes(items, i + 1)
    }
}

/// The bytes of the fields from `i` on, behind a field with the id `last`,
/// to the end of the struct.
pub open spec fn fields_bytes(ids: Seq<i16>, values: Seq<Value>, i: nat, last: i16) -> Seq<u8>
    decreases values, values.len() - i,
{
    if i >= values.len() {
        seq![0u8]
    } else {
        field_front(last, ids[i as int], values[i as int].ttype()) + (value_bytes(values[i as int])
            + fields_bytes(ids, values, i + 1, ids[i as int]))
    }
}

proof fn lemma_all_sound(values: Seq<Value>, i: nat, j: nat)
    requires
        all_sound(values, i),
        i <= j,
    ensures
        all_sound(values, j),
        j < values.len() ==> sound(values[j as int]),
    decreases j - i,
{
    if i < j {
        if i < values.len() {
            lemma_all_sound(values, i + 1, j);
        } else {
            assert(all_sound(values, j));
        }
    }
}

proof fn lemma_skip_passes(st: ThriftState, v: Value)
    requires
        sound(v),
        comes_next(st, value_bytes(v)),
    ensures
        skip_step(st, v.ttype()) == (Ok::<(), ErrorView>(()), st.advance(value_bytes(v).len())),
    decreases v, 0nat,
{
    match v {
        Value::Flag { .. } => {},
        Value::Byte { byte } => {
            assert(st.bytes.subrange(st.pos as int, (st.pos + 1) as int)[0] == byte);
        },
        Value::I16 { value } | Value::I32 { value } | Value::I64 { value } => {
            lemma_varint_stands(st, zigzag_encode(value));
        },
        Value::Double { .. } => {},
        Value::Binary { bytes } => {
            lemma_strings_read_back(st, bytes);
        },
        Value::List { of, items } | Value::SetOf { of, items } => {
            let front = list_front(of, items.len());
            let next = st.advance(front.len());
            lemma_next_after(st, front, items_bytes(items, 0), next);
            lemma_list_fronts_read_back(st, of, items.len());
            lemma_skip_passes_items(next, of, items, 0);
            assert(next.advance(items_bytes(items, 0).len()) == st.advance(value_bytes(v).len()));
        },
        Value::MapOf { from, to, entries } => {
            let count = entries.len() / 2;
            let front = map_front(from, to, count);
            let next = st.advance(front.len());
            lemma_next_after(st, front, items_bytes(entries, 0), next);
            lemma_map_fronts_read_back(st, from, to, count);
            if count > 0 {
                lemma_skip_passes_pairs(next, from, to, entries, 0);
            }
            assert(next.advance(items_bytes(entries, 0).len()) == st.advance(value_bytes(v).len()));
        },
        Value::Struct { ids, values } => {
            let inner = st.begin_struct();
            assert(comes_next(inner, value_bytes(v)));
            lemma_skip_passes_fields(inner, ids, values, 0);
            assert(inner.end_struct().advance(value_bytes(v).len()) =~= st.advance(
                value_bytes(v).len(),
            ));
            assert(inner.advance(value_bytes(v).len()).end_struct() =~= st.advance(
                value_bytes(v).len(),
            ));
        },
    }
}

proof fn lemma_skip_passes_item(st: ThriftState, t: TType, v: Value)
    requires
        sound(v),
        v.is_a(t),
        comes_next(st, item_bytes(v)),
    ensures
        skip_element_step(st, t) == (Ok::<(), ErrorView>(()), st.advance(item_bytes(v).len())),
    decreases v, 1nat,
{
    if !(v is Flag) {
        lemma_skip_passes(st, v);
    }
}

proof fn lemma_skip_passes_items(st: ThriftState, of: TType, items: Seq<Value>, i: nat)
    requires
        i <= items.len(),
        all_sound(items, i),
        forall|k: int| 0 <= k < items.len() ==> (#[trigger] items[k]).is_a(of),
        comes_next(st, items_bytes(items, i)),
    ensures
        skip_elements_step(st, of, (items.len() - i) as nat) == (
            Ok::<(), ErrorView>(()),
            st.advance(items_bytes(items, i).len()),
        ),
    decreases items, items.len() - i,
{
    if i < items.len() {
        let item = item_bytes(items[i as int]);
        let next = st.advance(item.len());
        lemma_next_after(st, item, items_bytes(items, i + 1), next);
        lemma_skip_passes_item(st, of, items[i as int]);
        lemma_skip_passes_items(next, of, items, i + 1);
        assert(next.advance(items_bytes(items, i + 1).len()) == st.advance(
            items_bytes(items, i).len(),
        ));
    }
}

proof fn lemma_skip_passes_pairs(
    st: ThriftState,
    keys: TType,
    values: TType,
    entries: Seq<Value>,
    i: nat,
)
    requires
        i <= entries.len(),
        i % 2 == 0,
        entries.len() % 2 == 0,
        all_sound(entries, i),
        forall|k: int|
            0 <= k < entries.len() ==> (#[trigger] entries[k]).is_a(
                if k % 2 == 0 {
                    keys
                } else {
                    values
                },
            ),
        comes_next(st, items_bytes(entries, i)),
    ensures
        skip_pairs_step(st, keys, values, ((entries.len() - i) / 2) as nat) == (
            Ok::<(), ErrorView>(()),
            st.advance(items_bytes(entries, i).len()),
        ),
    decreases entries, entries.len() - i,
{
    if i < entries.len() {
        let key = item_bytes(entries[i as int]);
        let value = item_bytes(entries[(i + 1) as int]);
        let rest = items_bytes(entries, i + 2);
        let mid = st.advance(key.len());
        let next = mid.advance(value.len());
        assert(items_bytes(entries, i) == key + items_bytes(entries, i + 1));
        assert(items_bytes(entries, i + 1) == value + rest);
        lemma_next_after(st, key, value + rest, mid);
        lemma_next_after(mid, value, rest, next);
        lemma_all_sound(entries, i, i + 1);
        lemma_all_sound(entries, i, i + 2);
        lemma_skip_passes_item(st, keys, entries[i as int]);
        lemma_skip_passes_item(mid, values, entries[(i + 1) as int]);
        lemma_skip_passes_pairs(next, keys, values, entries, i + 2);
        assert(((entries.len() - i) / 2) - 1 == (entries.len() - (i + 2)) / 2);
        assert(next.advance(rest.len()) == st.advance(items_bytes(entries, i).len()));
    }
}

proof fn lemma_skip_passes_fields(st: ThriftState, ids: Seq<i16>, values: Seq<Value>, i: nat)
    requires
        i <= values.len() == ids.len(),
        all_sound(values, i),
        st.stack.len() > 0,
        comes_next(st, fields_bytes(ids, values, i, st.last_field_id)),
    ensures
        ({
            let n = fields_bytes(ids, values, i, st.last_field_id).len();
            match field_header_step(st) {
                (Ok(None), next) => i == values.len() && next.end_struct() == st.end_struct().advance(
                    n,
                ),
                (Ok(Some(field)), next) => i < values.len() && next.left() < st.left()
                    && skip_fields_step(next, field.ttype) == (
                    Ok::<(), ErrorView>(()),
                    st.end_struct().advance(n),
                ),
                _ => false,
            }
        }),
    decreases values, values.len() - i,
{
    let last = st.last_field_id;
    if i < values.len() {
        let id = ids[i as int];
        let v = values[i as int];
        let front = field_front(last, id, v.ttype());
        let body = value_bytes(v);
        let rest = fields_bytes(ids, values, i + 1, id);
        let next = ThriftState { last_field_id: id, ..st.advance(front.len()) };
        let mid = next.advance(body.len());
        lemma_next_after(st, front, body + rest, next);
        lemma_next_after(next, body, rest, mid);
        lemma_field_fronts_read_back(st, id, v.ttype());
        lemma_skip_passes(next, v);
        lemma_skip_passes_fields(mid, ids, values, i + 1);
        assert(mid.end_struct().advance(rest.len()) =~= st.end_struct().advance(
            fields_bytes(ids, values, i, last).len(),
        ));
    } else {
        lemma_zero_ends_a_struct(st);
    }
}

/// Passing over a value consumes the bytes that it was written as, and
/// nothing else changes: not what the next field counts from, nor the
/// structs around it.
pub proof fn lemma_unknown_values_are_passed_over(st: ThriftState, v: Value)
    requires
        sound(v),
        comes_next(st, value_bytes(v)),
    ensures
        skip_step(st, v.ttype()) == (Ok::<(), ErrorView>(()), st.advance(value_bytes(v).len())),
{
    lemma_skip_passes(st, v);
}

/// The next field of a written struct: its front, then its value, then the
/// fields behind it.
pub proof fn lemma_next_field(st: ThriftState, ids: Seq<i16>, values: Seq<Value>, i: nat)
    requires
        i < values.len() == ids.len(),
        comes_next(st, fields_bytes(ids, values, i, st.last_field_id)),
    ensures
        ({
            let id = ids[i as int];
            let v = values[i as int];
            let front = field_front(st.last_field_id, id, v.ttype());
            let next = ThriftState { last_field_id: id, ..st.advance(front.len()) };
            &&& field_header_step(st) == (
                Ok::<Option<FieldHeader>, ErrorView>(Some(FieldHeader { ttype: v.ttype(), id })),
                next,
            )
            &&& front.len() > 0
            &&& comes_next(next, value_bytes(v))
            &&& comes_next(next.advance(value_bytes(v).len()), fields_bytes(ids, values, i + 1, id))
            &&& fields_bytes(ids, values, i, st.last_field_id).len() == front.len() + value_bytes(
                v,
            ).len() + fields_bytes(ids, values, i + 1, id).len()
        }),
{
    let id = ids[i as int];
    let v = values[i as int];
    let front = field_front(st.last_field_id, id, v.ttype());
    let body = value_bytes(v);
    let rest = fields_bytes(ids, values, i + 1, id);
    let next = ThriftState { last_field_id: id, ..st.advance(front.len()) };
    lemma_next_after(st, front, body + rest, next);
    lemma_next_after(next, body, rest, next.advance(body.len()));
    lemma_field_fronts_read_back(st, id, v.ttype());
}

/// Behind the last field of a written struct comes its end.
pub proof fn lemma_no_next_field(st: ThriftState, ids: Seq<i16>, values: Seq<Value>)
    requires
        comes_next(st, fields_bytes(ids, values, values.len(), st.last_field_id)),
    ensures
        field_header_step(st) == (Ok::<Option<FieldHeader>, ErrorView>(None), st.advance(1)),
        fields_bytes(ids, values, values.len(), st.last_field_id).len() == 1,
{
    lemma_zero_ends_a_struct(st);
}

/// The next item of a written container, then the items behind it.
pub proof fn lemma_next_item(st: ThriftState, items: Seq<Value>, i: nat)
    requires
        i < items.len(),
        comes_next(st, items_bytes(items, i)),
    ensures
        comes_next(st, item_bytes(items[i as int])),
        comes_next(st.advance(item_bytes(items[i as int]).len()), items_bytes(items, i + 1)),
        items_bytes(items, i).len() == item_bytes(items[i as int]).len() + items_bytes(
            items,
            i + 1,
        ).len(),
{
    let item = item_bytes(items[i as int]);
    lemma_next_after(st, item, items_bytes(items, i + 1), st.advance(item.len()));
}

/// The state behind the front of field `i`.
pub open spec fn at_value(st: ThriftState, ids: Seq<i16>, values: Seq<Value>, i: nat) -> ThriftState {
    ThriftState {
        last_field_id: ids[i as int],
        ..st.advance(field_front(st.last_field_id, ids[i as int], values[i as int].ttype()).len())
    }
}

/// The state behind field `i`.
pub open spec fn at_next(st: ThriftState, ids: Seq<i16>, values: Seq<Value>, i: nat) -> ThriftState {
    at_value(st, ids, values, i).advance(value_bytes(values[i as int]).len())
}

/// Whether the fields from `i` on come next and end behind the byte `end`.
#[verifier::opaque]
pub open spec fn fields_come(
    st: ThriftState,
    ids: Seq<i16>,
    values: Seq<Value>,
    i: nat,
    end: nat,
) -> bool {
    &&& i <= values.len() == ids.len()
    &&& comes_next(st, fields_bytes(ids, values, i, st.last_field_id))
    &&& st.pos + fields_bytes(ids, values, i, st.last_field_id).len() == end
}

/// The fields of a written struct come next once it was begun.
pub proof fn lemma_struct_comes(st: ThriftState, ids: Seq<i16>, values: Seq<Value>)
    requires
        ids.len() == values.len(),
        comes_next(st, value_bytes(Value::Struct { ids, values })),
    ensures
        fields_come(
            st.begin_struct(),
            ids,
            values,
            0,
            st.pos + value_bytes(Value::Struct { ids, values }).len(),
        ),
{
    reveal(fields_come);
}

/// Field `i` comes next, then the fields behind it.
pub proof fn lemma_field_comes(
    st: ThriftState,
    ids: Seq<i16>,
    values: Seq<Value>,
    i: nat,
    end: nat,
)
    requires
        i < values.len(),
        fields_come(st, ids, values, i, end),
    ensures
        field_header_step(st) == (
            Ok::<Option<FieldHeader>, ErrorView>(
                Some(FieldHeader { ttype: values[i as int].ttype(), id: ids[i as int] }),
            ),
            at_value(st, ids, values, i),
        ),
        comes_next(at_value(st, ids, values, i), value_bytes(values[i as int])),
        fields_come(at_next(st, ids, values, i), ids, values, i + 1, end),
        at_next(st, ids, values, i).left() < st.left(),
{
    reveal(fields_come);
    lemma_next_field(st, ids, values, i);
}

/// No field is left.
pub proof fn lemma_end_comes(st: ThriftState, ids: Seq<i16>, values: Seq<Value>, end: nat)
    requires
        fields_come(st, ids, values, values.len(), end),
    ensures
        field_header_step(st) == (Ok::<Option<FieldHeader>, ErrorView>(None), st.advance(1)),
        st.pos + 1 == end,
{
    reveal(fields_come);
    lemma_no_next_field(st, ids, values);
}

} // verus!
