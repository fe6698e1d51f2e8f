//! Frozen2 schema parser.
//!
//! The METADATA_V2_SCHEMA section is a Thrift compact-encoded
//! [`Schema`] struct. It records, for each Thrift type touched by the
//! metadata, a [`Layout`] describing how its fields map into the
//! bit-packed metadata blob: bit widths for primitives, bit or byte
//! offsets for struct fields, and a small set of well-known fields
//! (`distance`, `count`, `isset`) for ranges, strings, and optionals.

use std::collections::BTreeMap;

use crate::error::{Error, ErrorView, outcome};
use crate::metadata::thrift::{
    FieldHeader, Step, TType, ThriftReader, ThriftState, field_header_step, i16_step, i32_step,
    lemma_skip_moves, lemma_steps_move, map_header_step, skip_step, stepped, string_step,
};
use crate::text::{Text, dec_signed};
use vstd::prelude::*;

verus! {

/// One field of a Frozen2 layout.
#[derive(Debug, Clone, Copy, PartialEq, Eq, Structural)]
pub struct Field {
    /// Index into [`Schema::layouts`] giving the field value's layout.
    pub layout_id: i16,
    /// Field placement:
    ///   - `offset < 0`: bit offset within the parent struct, equal to
    ///     `-offset`.
    ///   - `offset >= 0`: byte offset within the parent.
    pub offset: i16,
}

impl View for Field {
    type V = Field;

    open spec fn view(&self) -> Field {
        *self
    }
}

impl Field {
    /// The bit offset that the placement means.
    pub open spec fn bits_from_parent(self) -> nat {
        if self.offset < 0 {
            (-self.offset) as nat
        } else {
            (self.offset * 8) as nat
        }
    }

    /// Bit offset of this field, derived from [`Field::offset`].
    pub fn bit_offset(&self) -> (r: u64)
        ensures
            r == self.bits_from_parent(),
    {
        if self.offset < 0 {
            (-(self.offset as i32)) as u64
        } else {
            (self.offset as u64) * 8
        }
    }

    /// Byte offset of this field, derived from [`Field::offset`].
    pub fn byte_offset(&self) -> (r: u64)
        ensures
            r == self.bits_from_parent() / 8,
    {
        if self.offset < 0 {
            ((-(self.offset as i32)) as u64) / 8
        } else {
            self.offset as u64
        }
    }

    /// True when the field is anchored at a bit offset rather than a
    /// whole-byte offset.
    pub fn is_bit_offset(&self) -> (r: bool)
        ensures
            r == (self.offset < 0),
    {
        self.offset < 0
    }
}

/// One layout in the schema.
#[derive(Debug)]
pub struct Layout {
    /// Total byte size of the value when stored inline. Zero when the
    /// layout is not inline-sized (typical for variable-length ranges
    /// referenced via distance).
    pub size: u32,
    /// Bit width for integral layouts. Zero for non-integrals.
    pub bits: u16,
    /// Fields by thrift field id.
    pub fields: BTreeMap<i16, Field>,
    /// Type name as recorded by the writer (diagnostic only).
    pub type_label: String,
}

/// What a [`Layout`] says.
#[verifier::ext_equal]
pub struct LayoutView {
    pub size: u32,
    pub bits: u16,
    pub fields: Map<i16, Field>,
    pub type_label: Seq<char>,
}

impl View for Layout {
    type V = LayoutView;

    open spec fn view(&self) -> LayoutView {
        LayoutView {
            size: self.size,
            bits: self.bits,
            fields: self.fields@,
            type_label: self.type_label@,
        }
    }
}

impl LayoutView {
    /// The layout with nothing recorded.
    pub open spec fn blank() -> LayoutView {
        LayoutView { size: 0, bits: 0, fields: Map::empty(), type_label: Seq::empty() }
    }

    /// The field with the given thrift id.
    pub open spec fn field(self, id: i16) -> Option<Field> {
        if self.fields.contains_key(id) {
            Some(self.fields[id])
        } else {
            None
        }
    }

    /// No fields and a non-zero bit width.
    pub open spec fn is_integral(self) -> bool {
        self.bits > 0 && self.fields == Map::<i16, Field>::empty()
    }
}

impl Default for Layout {
    fn default() -> (r: Self)
        ensures
            r@ == LayoutView::blank(),
    {
        Layout { size: 0, bits: 0, fields: BTreeMap::new(), type_label: String::new() }
    }
}

impl Clone for Layout {
    fn clone(&self) -> (r: Self)
        ensures
            r@ == self@,
    {
        Layout {
            size: self.size,
            bits: self.bits,
            fields: self.fields.clone(),
            type_label: self.type_label.clone(),
        }
    }
}

impl Layout {
    /// Look up a field by thrift id.
    pub fn field(&self, id: i16) -> (r: Option<&Field>)
        ensures
            match r {
                Some(f) => self@.field(id) == Some(*f),
                None => self@.field(id) is None,
            },
    {
        self.fields.get(&id)
    }

    /// True when this layout describes an integral value (no fields,
    /// non-zero bit width).
    pub fn is_integral(&self) -> (r: bool)
        ensures
            r == self@.is_integral(),
    {
        self.bits > 0 && map_is_empty(&self.fields)
    }
}

/// `BTreeMap::is_empty`, in terms of the entries.
pub(crate) fn map_is_empty(m: &BTreeMap<i16, Field>) -> (r: bool)
    ensures
        r == (m@ == Map::<i16, Field>::empty()),
{
    let r: bool = m.is_empty();
    proof {
        if m@.dom().len() == 0 && m@.dom().finite() {
            assert(m@.dom() =~= Set::<i16>::empty()) by {
                assert forall|k: i16| !m@.dom().contains(k) by {
                    if m@.dom().contains(k) {
                        vstd::set_lib::lemma_set_empty_equivalency_len(m@.dom());
                    }
                }
            }
            assert(m@ =~= Map::<i16, Field>::empty());
        }
    }
    r
}

/// Whether every key is between 1 and `last`.
pub(crate) fn fields_within(m: &BTreeMap<i16, Field>, last: i16) -> (r: bool)
    requires
        0 <= last,
    ensures
        r == (forall|id: i16| #[trigger] m@.contains_key(id) ==> 1 <= id <= last),
{
    let total: usize = m.len();
    let ghost mut seen: Set<i16> = Set::empty();
    let mut count: usize = 0;
    let mut next: i16 = 0;
    while next < last
        invariant
            0 <= next <= last,
            total == m@.dom().len(),
            m@.dom().finite(),
            seen.finite(),
            count == seen.len(),
            count <= next,
            seen.subset_of(m@.dom()),
            forall|id: i16| #[trigger] seen.contains(id) <==> m@.contains_key(id) && 1 <= id <= next,
        decreases last - next,
    {
        next = next + 1;
        if m.contains_key(&next) {
            proof {
                seen = seen.insert(next);
            }
            count = count + 1;
        }
    }
    proof {
        if count == total {
            vstd::set_lib::lemma_subset_equality(seen, m@.dom());
            assert forall|id: i16| #[trigger] m@.contains_key(id) implies 1 <= id <= last by {
                assert(seen.contains(id));
            }
        } else if forall|id: i16| #[trigger] m@.contains_key(id) ==> 1 <= id <= last {
            assert(seen =~= m@.dom());
        }
    }
    count == total
}

/// Parsed Frozen2 schema.
#[derive(Debug)]
pub struct Schema {
    /// Frozen2 file format version. Frozen2 is version 1.
    pub file_version: i32,
    /// Whether the writer disabled strict type-name matching.
    pub relax_type_checks: bool,
    /// Layouts keyed by id.
    pub layouts: BTreeMap<i16, Layout>,
    /// Id of the root layout.
    pub root_layout: i16,
}

/// What a [`Schema`] says.
#[verifier::ext_equal]
pub struct SchemaView {
    pub file_version: i32,
    pub relax_type_checks: bool,
    pub layouts: Map<i16, LayoutView>,
    pub root_layout: i16,
}

/// The layouts of a table, each by what it says.
pub open spec fn layout_views(layouts: Map<i16, Layout>) -> Map<i16, LayoutView> {
    layouts.map_values(|l: Layout| l@)
}

impl View for Schema {
    type V = SchemaView;

    open spec fn view(&self) -> SchemaView {
        SchemaView {
            file_version: self.file_version,
            relax_type_checks: self.relax_type_checks,
            layouts: layout_views(self.layouts@),
            root_layout: self.root_layout,
        }
    }
}

/// A decode failure of this module.
pub open spec fn schema_error(message: Seq<char>) -> ErrorView {
    ErrorView::Decode { codec: "frozen2-schema"@, message }
}

impl SchemaView {
    /// The schema before any field was read.
    pub open spec fn blank() -> SchemaView {
        SchemaView {
            file_version: 0,
            relax_type_checks: false,
            layouts: Map::empty(),
            root_layout: 0,
        }
    }

    /// The layout with the given id.
    pub open spec fn layout(self, id: i16) -> Result<LayoutView, ErrorView> {
        if self.layouts.contains_key(id) {
            Ok(self.layouts[id])
        } else {
            Err(schema_error("layout id "@ + dec_signed(id as int) + " not present"@))
        }
    }

    /// The root layout.
    pub open spec fn root(self) -> Result<LayoutView, ErrorView> {
        if self.layouts.contains_key(self.root_layout) {
            Ok(self.layouts[self.root_layout])
        } else {
            Err(
                schema_error(
                    "root layout id "@ + dec_signed(self.root_layout as int) + " not present"@,
                ),
            )
        }
    }
}

/// One field of a [`Field`] struct, added to what is known of it.
pub open spec fn field_member_step(st: ThriftState, fh: FieldHeader, acc: Field) -> Step<Field> {
    if fh.id == 1 && fh.ttype == TType::I16 {
        match i16_step(st) {
            (Ok(v), next) => (Ok(Field { layout_id: v, ..acc }), next),
            (Err(e), next) => (Err(e), next),
        }
    } else if fh.id == 2 && fh.ttype == TType::I16 {
        match i16_step(st) {
            (Ok(v), next) => (Ok(Field { offset: v, ..acc }), next),
            (Err(e), next) => (Err(e), next),
        }
    } else {
        match skip_step(st, fh.ttype) {
            (Ok(_), next) => (Ok(acc), next),
            (Err(e), next) => (Err(e), next),
        }
    }
}

/// The rest of a [`Field`] struct, to its end.
pub open spec fn field_members_step(st: ThriftState, acc: Field) -> Step<Field>
    decreases st.left(),
{
    match field_header_step(st) {
        (Ok(None), next) => (Ok(acc), next.end_struct()),
        (Ok(Some(fh)), next) => match field_member_step(next, fh, acc) {
            (Ok(more), after) => if after.left() < st.left() {
                field_members_step(after, more)
            } else {
                (Ok(more), after)
            },
            (Err(e), after) => (Err(e), after),
        },
        (Err(e), next) => (Err(e), next),
    }
}

/// A [`Field`] struct.
pub open spec fn field_step(st: ThriftState) -> Step<Field> {
    field_members_step(st.begin_struct(), Field { layout_id: 0, offset: 0 })
}

/// `count` entries of a field map. A later entry replaces an earlier one
/// with the same key.
pub open spec fn field_entries_step(st: ThriftState, count: nat, acc: Map<i16, Field>) -> Step<
    Map<i16, Field>,
>
    decreases count,
{
    if count == 0 {
        (Ok(acc), st)
    } else {
        match i16_step(st) {
            (Ok(key), mid) => match field_step(mid) {
                (Ok(field), next) => field_entries_step(
                    next,
                    (count - 1) as nat,
                    acc.insert(key, field),
                ),
                (Err(e), next) => (Err(e), next),
            },
            (Err(e), mid) => (Err(e), mid),
        }
    }
}

/// The complaint about a map with other keys or values than expected.
pub open spec fn map_types_error(what: Seq<char>, kt: TType, vt: TType) -> ErrorView {
    schema_error(
        what + " map has unexpected key/value types "@ + kt.text() + "/"@ + vt.text(),
    )
}

/// A map from `i16` to [`Field`] structs.
pub open spec fn field_map_step(st: ThriftState) -> Step<Map<i16, Field>> {
    match map_header_step(st) {
        (Ok((kt, vt, count)), next) => if count > 0 && (kt != TType::I16 || vt != TType::Struct) {
            (Err(map_types_error("field"@, kt, vt)), next)
        } else {
            field_entries_step(next, count as nat, Map::empty())
        },
        (Err(e), next) => (Err(e), next),
    }
}

/// One field of a [`Layout`] struct, added to what is known of it.
pub open spec fn layout_member_step(st: ThriftState, fh: FieldHeader, acc: LayoutView) -> Step<
    LayoutView,
> {
    if fh.id == 1 && fh.ttype == TType::I32 {
        match i32_step(st) {
            (Ok(v), next) => if v < 0 {
                (
                    Err(schema_error("layout size "@ + dec_signed(v as int) + " is negative"@)),
                    next,
                )
            } else {
                (Ok(LayoutView { size: v as u32, ..acc }), next)
            },
            (Err(e), next) => (Err(e), next),
        }
    } else if fh.id == 2 && fh.ttype == TType::I16 {
        match i16_step(st) {
            (Ok(v), next) => if v < 0 {
                (
                    Err(schema_error("layout bits "@ + dec_signed(v as int) + " is negative"@)),
                    next,
                )
            } else {
                (Ok(LayoutView { bits: v as u16, ..acc }), next)
            },
            (Err(e), next) => (Err(e), next),
        }
    } else if fh.id == 3 && fh.ttype == TType::MapOf {
        match field_map_step(st) {
            (Ok(fields), next) => (Ok(LayoutView { fields, ..acc }), next),
            (Err(e), next) => (Err(e), next),
        }
    } else if fh.id == 4 && fh.ttype == TType::Binary {
        match string_step(st) {
            (Ok(type_label), next) => (Ok(LayoutView { type_label, ..acc }), next),
            (Err(e), next) => (Err(e), next),
        }
    } else {
        match skip_step(st, fh.ttype) {
            (Ok(_), next) => (Ok(acc), next),
            (Err(e), next) => (Err(e), next),
        }
    }
}

/// The rest of a [`Layout`] struct, to its end.
pub open spec fn layout_members_step(st: ThriftState, acc: LayoutView) -> Step<LayoutView>
    decreases st.left(),
{
    match field_header_step(st) {
        (Ok(None), next) => (Ok(acc), next.end_struct()),
        (Ok(Some(fh)), next) => match layout_member_step(next, fh, acc) {
            (Ok(more), after) => if after.left() < st.left() {
                layout_members_step(after, more)
            } else {
                (Ok(more), after)
            },
            (Err(e), after) => (Err(e), after),
        },
        (Err(e), next) => (Err(e), next),
    }
}

/// A [`Layout`] struct.
pub open spec fn layout_step(st: ThriftState) -> Step<LayoutView> {
    layout_members_step(st.begin_struct(), LayoutView::blank())
}

/// `count` entries of a layout map.
pub open spec fn layout_entries_step(
    st: ThriftState,
    count: nat,
    acc: Map<i16, LayoutView>,
) -> Step<Map<i16, LayoutView>>
    decreases count,
{
    if count == 0 {
        (Ok(acc), st)
    } else {
        match i16_step(st) {
            (Ok(key), mid) => match layout_step(mid) {
                (Ok(layout), next) => layout_entries_step(
                    next,
                    (count - 1) as nat,
                    acc.insert(key, layout),
                ),
                (Err(e), next) => (Err(e), next),
            },
            (Err(e), mid) => (Err(e), mid),
        }
    }
}

/// A map from `i16` to [`Layout`] structs.
pub open spec fn layout_map_step(st: ThriftState) -> Step<Map<i16, LayoutView>> {
    match map_header_step(st) {
        (Ok((kt, vt, count)), next) => if count > 0 && (kt != TType::I16 || vt != TType::Struct) {
            (Err(map_types_error("layout"@, kt, vt)), next)
        } else {
            layout_entries_step(next, count as nat, Map::empty())
        },
        (Err(e), next) => (Err(e), next),
    }
}

/// One field of a [`Schema`] struct, added to what is known of it.
pub open spec fn schema_member_step(st: ThriftState, fh: FieldHeader, acc: SchemaView) -> Step<
    SchemaView,
> {
    if fh.id == 1 && fh.ttype == TType::BoolTrue {
        (Ok(SchemaView { relax_type_checks: true, ..acc }), st)
    } else if fh.id == 1 && fh.ttype == TType::BoolFalse {
        (Ok(SchemaView { relax_type_checks: false, ..acc }), st)
    } else if fh.id == 2 && fh.ttype == TType::MapOf {
        match layout_map_step(st) {
            (Ok(layouts), next) => (Ok(SchemaView { layouts, ..acc }), next),
            (Err(e), next) => (Err(e), next),
        }
    } else if fh.id == 3 && fh.ttype == TType::I16 {
        match i16_step(st) {
            (Ok(root_layout), next) => (Ok(SchemaView { root_layout, ..acc }), next),
            (Err(e), next) => (Err(e), next),
        }
    } else if fh.id == 4 && fh.ttype == TType::I32 {
        match i32_step(st) {
            (Ok(file_version), next) => (Ok(SchemaView { file_version, ..acc }), next),
            (Err(e), next) => (Err(e), next),
        }
    } else {
        match skip_step(st, fh.ttype) {
            (Ok(_), next) => (Ok(acc), next),
            (Err(e), next) => (Err(e), next),
        }
    }
}

/// The rest of a [`Schema`] struct, to its end.
pub open spec fn schema_members_step(st: ThriftState, acc: SchemaView) -> Step<SchemaView>
    decreases st.left(),
{
    match field_header_step(st) {
        (Ok(None), next) => (Ok(acc), next.end_struct()),
        (Ok(Some(fh)), next) => match schema_member_step(next, fh, acc) {
            (Ok(more), after) => if after.left() < st.left() {
                schema_members_step(after, more)
            } else {
                (Ok(more), after)
            },
            (Err(e), after) => (Err(e), after),
        },
        (Err(e), next) => (Err(e), next),
    }
}

/// What parsing a schema blob answers.
pub open spec fn parse_schema(bytes: Seq<u8>) -> Result<SchemaView, ErrorView> {
    schema_members_step(ThriftState::start(bytes).begin_struct(), SchemaView::blank()).0
}

proof fn lemma_field_members_moves(st: ThriftState, acc: Field)
    requires
        st.pos <= st.bytes.len(),
    ensures
        st.precedes(field_members_step(st, acc).1),
    decreases st.left(),
{
    lemma_steps_move(st);
    if let (Ok(Some(fh)), next) = field_header_step(st) {
        lemma_steps_move(next);
        lemma_skip_moves(next, fh.ttype);
        if let (Ok(more), after) = field_member_step(next, fh, acc) {
            lemma_field_members_moves(after, more);
        }
    }
}

proof fn lemma_field_entries_moves(st: ThriftState, count: nat, acc: Map<i16, Field>)
    requires
        st.pos <= st.bytes.len(),
    ensures
        st.precedes(field_entries_step(st, count, acc).1),
    decreases count,
{
    if count > 0 {
        lemma_steps_move(st);
        if let (Ok(key), mid) = i16_step(st) {
            lemma_field_members_moves(mid.begin_struct(), Field { layout_id: 0, offset: 0 });
            if let (Ok(field), next) = field_step(mid) {
                lemma_field_entries_moves(next, (count - 1) as nat, acc.insert(key, field));
            }
        }
    }
}

proof fn lemma_layout_member_moves(st: ThriftState, fh: FieldHeader, acc: LayoutView)
    requires
        st.pos <= st.bytes.len(),
    ensures
        st.precedes(layout_member_step(st, fh, acc).1),
{
    lemma_steps_move(st);
    lemma_skip_moves(st, fh.ttype);
    if let (Ok((kt, vt, count)), next) = map_header_step(st) {
        lemma_field_entries_moves(next, count as nat, Map::empty());
    }
}

proof fn lemma_layout_members_moves(st: ThriftState, acc: LayoutView)
    requires
        st.pos <= st.bytes.len(),
    ensures
        st.precedes(layout_members_step(st, acc).1),
    decreases st.left(),
{
    lemma_steps_move(st);
    if let (Ok(Some(fh)), next) = field_header_step(st) {
        lemma_layout_member_moves(next, fh, acc);
        if let (Ok(more), after) = layout_member_step(next, fh, acc) {
            lemma_layout_members_moves(after, more);
        }
    }
}

proof fn lemma_layout_entries_moves(st: ThriftState, count: nat, acc: Map<i16, LayoutView>)
    requires
        st.pos <= st.bytes.len(),
    ensures
        st.precedes(layout_entries_step(st, count, acc).1),
    decreases count,
{
    if count > 0 {
        lemma_steps_move(st);
        if let (Ok(key), mid) = i16_step(st) {
            lemma_layout_members_moves(mid.begin_struct(), LayoutView::blank());
            if let (Ok(layout), next) = layout_step(mid) {
                lemma_layout_entries_moves(next, (count - 1) as nat, acc.insert(key, layout));
            }
        }
    }
}

proof fn lemma_schema_member_moves(st: ThriftState, fh: FieldHeader, acc: SchemaView)
    requires
        st.pos <= st.bytes.len(),
    ensures
        st.precedes(schema_member_step(st, fh, acc).1),
{
    lemma_steps_move(st);
    lemma_skip_moves(st, fh.ttype);
    if let (Ok((kt, vt, count)), next) = map_header_step(st) {
        lemma_layout_entries_moves(next, count as nat, Map::empty());
    }
}

impl Schema {
    /// Parse a Thrift compact-encoded schema blob.
    pub fn parse(bytes: &[u8]) -> (r: Result<Self, Error>)
        ensures
            outcome(r, parse_schema(bytes@)),
    {
        let mut r = ThriftReader::new(bytes);
        r.read_struct_begin();
        let mut schema = Schema {
            file_version: 0,
            relax_type_checks: false,
            layouts: BTreeMap::new(),
            root_layout: 0,
        };
        assert(schema@ == SchemaView::blank());
        loop
            invariant
                r.wf(),
                schema_members_step(
                    ThriftState::start(bytes@).begin_struct(),
                    SchemaView::blank(),
                ) == schema_members_step(r@, schema@),
            decreases r@.left(),
        {
            let ghost st = r@;
            proof {
                r.lemma_wf();
                lemma_steps_move(st);
            }
            let fh: FieldHeader = match r.read_field_header() {
                Ok(Some(fh)) => fh,
                Ok(None) => {
                    r.read_struct_end();
                    return Ok(schema);
                },
                Err(e) => {
                    return Err(e);
                },
            };
            let ghost before = schema@;
            proof {
                r.lemma_wf();
                lemma_schema_member_moves(r@, fh, before);
            }
            if fh.id == 1 && fh.ttype == TType::BoolTrue {
                schema.relax_type_checks = true;
            } else if fh.id == 1 && fh.ttype == TType::BoolFalse {
                schema.relax_type_checks = false;
            } else if fh.id == 2 && fh.ttype == TType::MapOf {
                match read_layout_map(&mut r) {
                    Ok(layouts) => {
                        schema.layouts = layouts;
                    },
                    Err(e) => {
                        return Err(e);
                    },
                }
            } else if fh.id == 3 && fh.ttype == TType::I16 {
                match r.read_i16() {
                    Ok(v) => {
                        schema.root_layout = v;
                    },
                    Err(e) => {
                        return Err(e);
                    },
                }
            } else if fh.id == 4 && fh.ttype == TType::I32 {
                match r.read_i32() {
                    Ok(v) => {
                        schema.file_version = v;
                    },
                    Err(e) => {
                        return Err(e);
                    },
                }
            } else {
                match r.skip_value(fh.ttype) {
                    Ok(()) => {},
                    Err(e) => {
                        return Err(e);
                    },
                }
            }
        }
    }

    /// Borrow the root layout.
    pub fn root(&self) -> (r: Result<&Layout, Error>)
        ensures
            outcome(r, self@.root()),
    {
        match self.layouts.get(&self.root_layout) {
            Some(layout) => Ok(layout),
            None => Err(
                decode(
                    Text::of("root layout id ").signed(self.root_layout as i64).str(
                        " not present",
                    ),
                ),
            ),
        }
    }

    /// Borrow a layout by id.
    pub fn layout(&self, id: i16) -> (r: Result<&Layout, Error>)
        ensures
            outcome(r, self@.layout(id)),
    {
        match self.layouts.get(&id) {
            Some(layout) => Ok(layout),
            None => Err(decode(Text::of("layout id ").signed(id as i64).str(" not present"))),
        }
    }
}

fn decode(message: Text) -> (e: Error)
    ensures
        e@ == schema_error(message@),
{
    Error::Decode { codec: "frozen2-schema", message: message.done() }
}

fn map_types_complaint(what: &str, kt: TType, vt: TType) -> (e: Error)
    ensures
        e@ == map_types_error(what@, kt, vt),
{
    decode(
        Text::of(what).str(" map has unexpected key/value types ").str(kt.name()).str("/").str(
            vt.name(),
        ),
    )
}

fn read_layout_map(r: &mut ThriftReader<'_>) -> (res: Result<BTreeMap<i16, Layout>, Error>)
    requires
        old(r).wf(),
    ensures
        final(r).wf(),
        final(r)@ == layout_map_step(old(r)@).1,
        match res {
            Ok(m) => layout_map_step(old(r)@).0 == Ok::<Map<i16, LayoutView>, ErrorView>(
                layout_views(m@),
            ),
            Err(e) => layout_map_step(old(r)@).0 == Err::<Map<i16, LayoutView>, ErrorView>(e@),
        },
{
    let (kt, vt, count): (TType, TType, u32) = match r.read_map_header() {
        Ok(h) => h,
        Err(e) => {
            return Err(e);
        },
    };
    if count > 0 && (kt != TType::I16 || vt != TType::Struct) {
        return Err(map_types_complaint("layout", kt, vt));
    }
    let mut out: BTreeMap<i16, Layout> = BTreeMap::new();
    assert(layout_views(out@) == Map::<i16, LayoutView>::empty());
    let mut left: u32 = count;
    while left > 0
        invariant
            r.wf(),
            layout_map_step(old(r)@) == layout_entries_step(r@, left as nat, layout_views(out@)),
        decreases left,
    {
        let key: i16 = match r.read_i16() {
            Ok(k) => k,
            Err(e) => {
                return Err(e);
            },
        };
        let layout: Layout = match read_layout(r) {
            Ok(l) => l,
            Err(e) => {
                return Err(e);
            },
        };
        let ghost before = out@;
        let ghost l = layout@;
        out.insert(key, layout);
        assert(layout_views(out@) == layout_views(before).insert(key, l));
        left = left - 1;
    }
    Ok(out)
}

fn read_layout(r: &mut ThriftReader<'_>) -> (res: Result<Layout, Error>)
    requires
        old(r).wf(),
    ensures
        final(r).wf(),
        stepped(res, final(r)@, layout_step(old(r)@)),
{
    r.read_struct_begin();
    let mut layout: Layout = Layout::default();
    loop
        invariant
            r.wf(),
            layout_step(old(r)@) == layout_members_step(r@, layout@),
        decreases r@.left(),
    {
        let ghost st = r@;
        proof {
            r.lemma_wf();
            lemma_steps_move(st);
        }
        let fh: FieldHeader = match r.read_field_header() {
            Ok(Some(fh)) => fh,
            Ok(None) => {
                r.read_struct_end();
                return Ok(layout);
            },
            Err(e) => {
                return Err(e);
            },
        };
        let ghost before = layout@;
        proof {
            r.lemma_wf();
            lemma_layout_member_moves(r@, fh, before);
        }
        if fh.id == 1 && fh.ttype == TType::I32 {
            match r.read_i32() {
                Ok(v) => {
                    if v < 0 {
                        return Err(
                            decode(
                                Text::of("layout size ").signed(v as i64).str(" is negative"),
                            ),
                        );
                    }
                    layout.size = v as u32;
                },
                Err(e) => {
                    return Err(e);
                },
            }
        } else if fh.id == 2 && fh.ttype == TType::I16 {
            match r.read_i16() {
                Ok(v) => {
                    if v < 0 {
                        return Err(
                            decode(
                                Text::of("layout bits ").signed(v as i64).str(" is negative"),
                            ),
                        );
                    }
                    layout.bits = v as u16;
                },
                Err(e) => {
                    return Err(e);
                },
            }
        } else if fh.id == 3 && fh.ttype == TType::MapOf {
            match read_field_map(r) {
                Ok(fields) => {
                    layout.fields = fields;
                },
                Err(e) => {
                    return Err(e);
                },
            }
        } else if fh.id == 4 && fh.ttype == TType::Binary {
            match r.read_string() {
                Ok(name) => {
                    layout.type_label = name;
                },
                Err(e) => {
                    return Err(e);
                },
            }
        } else {
            match r.skip_value(fh.ttype) {
                Ok(()) => {},
                Err(e) => {
                    return Err(e);
                },
            }
        }
    }
}

fn read_field_map(r: &mut ThriftReader<'_>) -> (res: Result<BTreeMap<i16, Field>, Error>)
    requires
        old(r).wf(),
    ensures
        final(r).wf(),
        stepped(res, final(r)@, field_map_step(old(r)@)),
{
    let (kt, vt, count): (TType, TType, u32) = match r.read_map_header() {
        Ok(h) => h,
        Err(e) => {
            return Err(e);
        },
    };
    if count > 0 && (kt != TType::I16 || vt != TType::Struct) {
        return Err(map_types_complaint("field", kt, vt));
    }
    let mut out: BTreeMap<i16, Field> = BTreeMap::new();
    let mut left: u32 = count;
    while left > 0
        invariant
            r.wf(),
            field_map_step(old(r)@) == field_entries_step(r@, left as nat, out@),
        decreases left,
    {
        let key: i16 = match r.read_i16() {
            Ok(k) => k,
            Err(e) => {
                return Err(e);
            },
        };
        let field: Field = match read_field(r) {
            Ok(f) => f,
            Err(e) => {
                return Err(e);
            },
        };
        out.insert(key, field);
        left = left - 1;
    }
    Ok(out)
}

fn read_field(r: &mut ThriftReader<'_>) -> (res: Result<Field, Error>)
    requires
        old(r).wf(),
    ensures
        final(r).wf(),
        stepped(res, final(r)@, field_step(old(r)@)),
{
    r.read_struct_begin();
    let mut field: Field = Field { layout_id: 0, offset: 0 };
    loop
        invariant
            r.wf(),
            field_step(old(r)@) == field_members_step(r@, field),
        decreases r@.left(),
    {
        let ghost st = r@;
        proof {
            r.lemma_wf();
            lemma_steps_move(st);
        }
        let fh: FieldHeader = match r.read_field_header() {
            Ok(Some(fh)) => fh,
            Ok(None) => {
                r.read_struct_end();
                return Ok(field);
            },
            Err(e) => {
                return Err(e);
            },
        };
        proof {
            r.lemma_wf();
            lemma_steps_move(r@);
            lemma_skip_moves(r@, fh.ttype);
        }
        if fh.id == 1 && fh.ttype == TType::I16 {
            match r.read_i16() {
                Ok(v) => {
                    field.layout_id = v;
                },
                Err(e) => {
                    return Err(e);
                },
            }
        } else if fh.id == 2 && fh.ttype == TType::I16 {
            match r.read_i16() {
                Ok(v) => {
                    field.offset = v;
                },
                Err(e) => {
                    return Err(e);
                },
            }
        } else {
            match r.skip_value(fh.ttype) {
                Ok(()) => {},
                Err(e) => {
                    return Err(e);
                },
            }
        }
    }
}

} // verus!
