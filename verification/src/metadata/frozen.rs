//! Frozen2 layout-driven decoder.
//!
//! The Frozen2 format places each value in a bit-packed payload at a
//! position computed from its layout. Primitives are stored as
//! bit-extents at a given bit offset; structs nest fields at child
//! positions; ranges (lists and strings) record `(count, distance)`
//! where `distance` is **relative to the range field's own byte
//! position**, not absolute within the blob. That relativity is the
//! single most common source of bugs in Frozen2 readers, so this module
//! makes it the explicit contract of every range traversal.
//!
//! Field-kind classification is structural: a layout with no fields
//! is integral, a layout with a 1-bit field at id 1 is treated as
//! optional (`{isset, value}`), a layout with fields `{1, 2}` is a
//! string/blittable range, fields `{1, 2, 3}` an array (the item
//! layout lives at field 3), and anything else is a user struct.

use crate::error::{Error, ErrorView, decode_error, outcome};
use crate::metadata::bitbuf::{BitBuf, read_bits};
use crate::metadata::schema::{Field, Layout, LayoutView, Schema, SchemaView, fields_within, map_is_empty};
use crate::text::{Text, dec, dec_signed};
use vstd::prelude::*;

verus! {

/// A position in the Frozen2 blob: a byte anchor plus an accumulated
/// bit offset that may exceed 8 mid-traversal.
#[derive(Debug, Clone, Copy)]
pub struct Pos {
    /// Byte anchor.
    pub byte: u64,
    /// Bit offset from `byte`. Can exceed 7 because nested bit fields
    /// accumulate before being normalized for an integral read.
    pub bit: u64,
}

impl View for Pos {
    type V = Pos;

    open spec fn view(&self) -> Pos {
        *self
    }
}

/// `n`, or the largest `u64` when `n` lies above it.
pub open spec fn saturated(n: int) -> u64 {
    if n > u64::MAX {
        u64::MAX
    } else {
        n as u64
    }
}

impl Pos {
    /// The absolute bit `8 * byte + bit`, saturated.
    pub open spec fn abs(self) -> u64 {
        saturated(8 * self.byte + self.bit)
    }

    /// The position of a child field. An offset of no blob saturates, so
    /// a read there fails.
    pub open spec fn at(self, field: Field) -> Pos {
        if field.offset < 0 {
            Pos { byte: self.byte, bit: saturated(self.bit - field.offset) }
        } else {
            Pos { byte: saturated(self.byte + field.offset), bit: self.bit }
        }
    }

    /// Position of the root structure (byte 0, bit 0).
    pub fn root() -> (r: Self)
        ensures
            r == (Pos { byte: 0, bit: 0 }),
    {
        Self { byte: 0, bit: 0 }
    }

    /// Absolute bit offset = `byte * 8 + bit`.
    pub fn absolute_bit(&self) -> (r: u64)
        ensures
            r == self.abs(),
    {
        let wide: u128 = (self.byte as u128) * 8 + self.bit as u128;
        if wide > u64::MAX as u128 {
            u64::MAX
        } else {
            wide as u64
        }
    }

    /// Compute the position of a child field.
    pub fn child(&self, field: &Field) -> (r: Self)
        ensures
            r == self.at(*field),
    {
        if field.offset < 0 {
            Self {
                byte: self.byte,
                bit: self.bit.saturating_add((-(field.offset as i32)) as u64),
            }
        } else {
            Self { byte: self.byte.saturating_add(field.offset as u64), bit: self.bit }
        }
    }
}

/// Structural classification of a [`Layout`] kind.
#[derive(Debug, Clone, Copy, PartialEq, Eq, Structural)]
pub enum LayoutKind {
    /// A primitive integral value with the given bit width.
    Integral(u32),
    /// A user-defined struct keyed by Thrift field id.
    Struct,
    /// A blittable range with no per-element layout (strings, byte
    /// vectors).
    String,
    /// A range of items addressed by a separate item layout id.
    Array {
        /// Layout id of the per-element layout.
        item_layout_id: i16,
    },
    /// An optional value with an isset bit and a value layout.
    ///
    /// `value_layout_id` is `None` when the writer elided the value
    /// field because the value type carries no storage (a Frozen2
    /// optimization for things like always-empty sets). In that case
    /// the optional is decoded by reading only the isset bit, and the
    /// value is the default of its type.
    Optional {
        /// Layout id of the value when present, or `None` when the
        /// value field was elided.
        value_layout_id: Option<i16>,
    },
    /// Empty layout (no storage). Treated as "not present".
    Empty,
}

/// The layout id of a field, when the layout has the field.
pub open spec fn field_layout_id(layout: LayoutView, id: i16) -> Option<i16> {
    match layout.field(id) {
        Some(f) => Some(f.layout_id),
        None => None,
    }
}

/// Whether every field of a layout is one that a range can have: its
/// distance, its count or its items.
pub open spec fn has_range_fields(layout: LayoutView) -> bool {
    forall|id: i16| #[trigger] layout.fields.contains_key(id) ==> 1 <= id <= 3
}

/// The kind of a layout with at least one field whose first field, if
/// any, is not a single bit. A field that no range has makes it a struct.
pub open spec fn range_or_struct(layout: LayoutView) -> LayoutKind {
    if !has_range_fields(layout) {
        LayoutKind::Struct
    } else if let Some(f3) = layout.field(3) {
        LayoutKind::Array { item_layout_id: f3.layout_id }
    } else if layout.field(1) is Some || layout.field(2) is Some {
        LayoutKind::String
    } else {
        LayoutKind::Struct
    }
}

/// The kind of a layout.
pub open spec fn kind_of(layout: LayoutView, schema: SchemaView) -> Result<LayoutKind, ErrorView> {
    if layout.fields == Map::<i16, Field>::empty() {
        if layout.bits == 0 && layout.size == 0 {
            Ok(LayoutKind::Empty)
        } else {
            Ok(LayoutKind::Integral(layout.bits as u32))
        }
    } else {
        match layout.field(1) {
            Some(f1) => match schema.layout(f1.layout_id) {
                Ok(l1) => if l1.fields == Map::<i16, Field>::empty() && l1.bits == 1 {
                    Ok(LayoutKind::Optional { value_layout_id: field_layout_id(layout, 2) })
                } else {
                    Ok(range_or_struct(layout))
                },
                Err(e) => Err(e),
            },
            None => Ok(range_or_struct(layout)),
        }
    }
}

impl View for LayoutKind {
    type V = LayoutKind;

    open spec fn view(&self) -> LayoutKind {
        *self
    }
}

impl LayoutKind {
    /// The kind, spelled out with its fields.
    pub open spec fn text(self) -> Seq<char> {
        match self {
            LayoutKind::Integral(bits) => "Integral("@ + dec(bits as nat) + ")"@,
            LayoutKind::Struct => "Struct"@,
            LayoutKind::String => "String"@,
            LayoutKind::Array { item_layout_id } => "Array { item_layout_id: "@ + dec_signed(
                item_layout_id as int,
            ) + " }"@,
            LayoutKind::Optional { value_layout_id: Some(id) } =>
                "Optional { value_layout_id: Some("@ + dec_signed(id as int) + ") }"@,
            LayoutKind::Optional { value_layout_id: None } =>
                "Optional { value_layout_id: None }"@,
            LayoutKind::Empty => "Empty"@,
        }
    }

    /// The kind, spelled out with its fields.
    pub fn describe(&self) -> (r: String)
        ensures
            r@ == self.text(),
    {
        match self {
            LayoutKind::Integral(bits) => Text::of("Integral(").num(*bits as u64).str(")").done(),
            LayoutKind::Struct => Text::of("Struct").done(),
            LayoutKind::String => Text::of("String").done(),
            LayoutKind::Array { item_layout_id } => Text::of("Array { item_layout_id: ").signed(
                *item_layout_id as i64,
            ).str(" }").done(),
            LayoutKind::Optional { value_layout_id } => match value_layout_id {
                Some(id) => Text::of("Optional { value_layout_id: Some(").signed(*id as i64).str(
                    ") }",
                ).done(),
                None => Text::of("Optional { value_layout_id: None }").done(),
            },
            LayoutKind::Empty => Text::of("Empty").done(),
        }
    }

    /// Classify a layout by its structure. Used to pick the right
    /// reader.
    ///
    /// Frozen2 elides any sub-field whose value layout is empty. The
    /// most common consequences are:
    ///
    /// - An `Optional<T>` whose value type carries no storage drops
    ///   the value field and keeps only the 1-bit isset field.
    /// - A range whose data starts at the layout's own byte position
    ///   drops the `distance` field; an always-empty range drops both
    ///   distance and count.
    ///
    /// The classifier handles each case explicitly so callers can
    /// branch on the kind without worrying about which fields the
    /// writer chose to keep. A layout that is no optional and has a
    /// field beyond those of a range is a struct.
    pub fn of(layout: &Layout, schema: &Schema) -> (r: Result<Self, Error>)
        ensures
            outcome(r, kind_of(layout@, schema@)),
    {
        if map_is_empty(&layout.fields) {
            if layout.bits == 0 && layout.size == 0 {
                return Ok(LayoutKind::Empty);
            }
            return Ok(LayoutKind::Integral(layout.bits as u32));
        }
        if let Some(f1) = layout.field(1) {
            match schema.layout(f1.layout_id) {
                Ok(l1) => {
                    if map_is_empty(&l1.fields) && l1.bits == 1 {
                        let value_layout_id: Option<i16> = match layout.field(2) {
                            Some(f) => Some(f.layout_id),
                            None => None,
                        };
                        return Ok(LayoutKind::Optional { value_layout_id });
                    }
                },
                Err(e) => {
                    return Err(e);
                },
            }
        }
        if !fields_within(&layout.fields, 3) {
            return Ok(LayoutKind::Struct);
        }
        if let Some(f3) = layout.field(3) {
            return Ok(LayoutKind::Array { item_layout_id: f3.layout_id });
        }
        if layout.field(1).is_some() || layout.field(2).is_some() {
            return Ok(LayoutKind::String);
        }
        Ok(LayoutKind::Struct)
    }
}

/// View of a resolved range or string.
#[derive(Debug, Clone, Copy)]
pub struct RangeView {
    /// Byte offset of the first element. For an empty range this is
    /// the same as the range layout's byte anchor and the count is 0.
    pub data_byte: u64,
    /// Number of elements.
    pub count: u64,
    /// Layout id of one element, if this is an [`LayoutKind::Array`].
    pub item_layout_id: Option<i16>,
}

impl View for RangeView {
    type V = RangeView;

    open spec fn view(&self) -> RangeView {
        *self
    }
}

/// View of a resolved optional.
#[derive(Debug, Clone, Copy)]
pub struct OptionalView {
    /// Whether the optional is set.
    pub present: bool,
    /// Position of the contained value when `present` is true and the
    /// value layout was not elided.
    pub value_pos: Pos,
    /// Layout id of the contained value. `None` when the writer elided
    /// the value field for an empty value type.
    pub value_layout_id: Option<i16>,
}

impl View for OptionalView {
    type V = OptionalView;

    open spec fn view(&self) -> OptionalView {
        *self
    }
}

/// Helper handle returned by [`Frozen::field`]. Carries the field's
/// position plus the schema field info for further resolution.
pub struct FieldView {
    /// The schema's field metadata (layout id and bit/byte offset).
    pub field: Field,
    /// The field's computed position.
    pub pos: Pos,
}

/// A blob and the schema it is read under.
#[verifier::ext_equal]
pub struct FrozenView {
    pub schema: SchemaView,
    pub bytes: Seq<u8>,
}

/// A decode failure of this module.
pub open spec fn frozen_error(message: Seq<char>) -> ErrorView {
    ErrorView::Decode { codec: "frozen2"@, message }
}

impl FrozenView {
    /// The integer of the field `id` of `layout` at `pos`; zero when the
    /// writer elided the field.
    pub open spec fn int_or_zero(self, pos: Pos, layout: LayoutView, id: i16) -> Result<
        u64,
        ErrorView,
    > {
        match layout.field(id) {
            Some(field) => match self.schema.layout(field.layout_id) {
                Ok(l) => read_bits(self.bytes, pos.at(field).abs(), l.bits as u32),
                Err(e) => Err(e),
            },
            None => Ok(0),
        }
    }

    /// The range at `pos`: its data starts `distance` bytes after the
    /// range's own byte anchor.
    pub open spec fn range(self, pos: Pos, layout: LayoutView) -> Result<RangeView, ErrorView> {
        match self.int_or_zero(pos, layout, 2) {
            Ok(count) => match if count == 0 {
                Ok(0)
            } else {
                self.int_or_zero(pos, layout, 1)
            } {
                Ok(distance) => if pos.byte + distance > u64::MAX {
                    Err(frozen_error("range distance overflow"@))
                } else {
                    Ok(
                        RangeView {
                            data_byte: (pos.byte + distance) as u64,
                            count,
                            item_layout_id: field_layout_id(layout, 3),
                        },
                    )
                },
                Err(e) => Err(e),
            },
            Err(e) => Err(e),
        }
    }

    /// The optional at `pos`.
    pub open spec fn optional(self, pos: Pos, layout: LayoutView) -> Result<
        OptionalView,
        ErrorView,
    > {
        match layout.field(1) {
            Some(isset) => match read_bits(self.bytes, pos.at(isset).abs(), 1) {
                Ok(bit) => Ok(
                    match layout.field(2) {
                        Some(value) => OptionalView {
                            present: bit != 0,
                            value_pos: pos.at(value),
                            value_layout_id: Some(value.layout_id),
                        },
                        None => OptionalView {
                            present: bit != 0,
                            value_pos: pos,
                            value_layout_id: None,
                        },
                    },
                ),
                Err(e) => Err(e),
            },
            None => Err(frozen_error("expected sub-field with id "@ + dec_signed(1))),
        }
    }

    /// The bytes of the string at `pos`.
    pub open spec fn string_bytes(self, pos: Pos, layout: LayoutView) -> Result<
        Seq<u8>,
        ErrorView,
    > {
        match self.range(pos, layout) {
            Ok(range) => {
                let start = range.data_byte as int;
                let end = range.data_byte + range.count;
                if end > usize::MAX {
                    Err(frozen_error("string slice overflow"@))
                } else if end > self.bytes.len() {
                    Err(
                        frozen_error(
                            "string slice "@ + dec(start as nat) + ".."@ + dec(end as nat)
                                + " runs past buffer of "@ + dec(self.bytes.len()) + " bytes"@,
                        ),
                    )
                } else {
                    Ok(self.bytes.subrange(start, end))
                }
            },
            Err(e) => Err(e),
        }
    }

    /// The position of element `i` of a range. Byte-sized items advance
    /// the byte anchor; bit-sized items advance only the bit offset, so
    /// that a nested distance still counts from the array's data start.
    pub open spec fn element(self, range: RangeView, i: u64) -> Result<Pos, ErrorView> {
        match range.item_layout_id {
            None => if range.data_byte + i > u64::MAX {
                Err(frozen_error("string element offset overflow"@))
            } else {
                Ok(Pos { byte: (range.data_byte + i) as u64, bit: 0 })
            },
            Some(id) => match self.schema.layout(id) {
                Ok(item) => if item.size > 0 {
                    if i * item.size > u64::MAX || range.data_byte + i * item.size > u64::MAX {
                        Err(frozen_error("array element byte offset overflow"@))
                    } else {
                        Ok(Pos { byte: (range.data_byte + i * item.size) as u64, bit: 0 })
                    }
                } else if i * item.bits > u64::MAX {
                    Err(frozen_error("array element bit offset overflow"@))
                } else {
                    Ok(Pos { byte: range.data_byte, bit: (i * item.bits) as u64 })
                },
                Err(e) => Err(e),
            },
        }
    }
}

/// Moving a range without changing its stored count and distance moves
/// its data by as much: the distance counts from the range's own byte.
pub proof fn lemma_distance_is_relative(
    f: FrozenView,
    pos: Pos,
    layout: LayoutView,
    distance: u64,
    count: u64,
)
    requires
        count > 0,
        f.int_or_zero(pos, layout, 2) == Ok::<u64, ErrorView>(count),
        f.int_or_zero(pos, layout, 1) == Ok::<u64, ErrorView>(distance),
        pos.byte + distance <= u64::MAX,
    ensures
        f.range(pos, layout) matches Ok(r) && r.data_byte == pos.byte + distance && r.count
            == count,
{
}

/// An empty range reads no distance: its data starts at its own byte.
pub proof fn lemma_empty_range(f: FrozenView, pos: Pos, layout: LayoutView)
    requires
        f.int_or_zero(pos, layout, 2) == Ok::<u64, ErrorView>(0),
    ensures
        f.range(pos, layout) matches Ok(r) && r.data_byte == pos.byte && r.count == 0,
{
}

/// Elements narrower than a byte keep the byte anchor of their range.
pub proof fn lemma_bit_elements_keep_anchor(f: FrozenView, range: RangeView, i: u64)
    requires
        range.item_layout_id matches Some(id) && f.schema.layout(id) matches Ok(item) && item.size
            == 0,
    ensures
        f.element(range, i) matches Ok(pos) ==> pos.byte == range.data_byte,
{
}

/// Decoder driving lookups into a Frozen2 blob via a schema.
pub struct Frozen<'a> {
    schema: &'a Schema,
    buf: BitBuf<'a>,
}

impl<'a> View for Frozen<'a> {
    type V = FrozenView;

    closed spec fn view(&self) -> FrozenView {
        FrozenView { schema: self.schema@, bytes: self.buf@ }
    }
}

impl<'a> Frozen<'a> {
    /// Build a decoder over `bytes` interpreted under `schema`.
    pub fn new(schema: &'a Schema, bytes: &'a [u8]) -> (r: Self)
        ensures
            r@ == (FrozenView { schema: schema@, bytes: bytes@ }),
    {
        Self { schema, buf: BitBuf::new(bytes) }
    }

    /// Borrow the schema.
    pub fn schema(&self) -> (r: &'a Schema)
        ensures
            r@ == self@.schema,
    {
        self.schema
    }

    /// Borrow the underlying bit buffer.
    pub fn buf(&self) -> (r: BitBuf<'a>)
        ensures
            r@ == self@.bytes,
    {
        self.buf
    }

    /// Position of the root structure.
    pub fn root_pos(&self) -> (r: Pos)
        ensures
            r == (Pos { byte: 0, bit: 0 }),
    {
        Pos::root()
    }

    /// Borrow the root layout from the schema.
    pub fn root_layout(&self) -> (r: Result<&'a Layout, Error>)
        ensures
            outcome(r, self@.schema.root()),
    {
        self.schema.root()
    }

    /// Read an integral value of `bits` width at `pos`.
    pub fn read_integral(&self, pos: Pos, bits: u32) -> (r: Result<u64, Error>)
        ensures
            outcome(r, read_bits(self@.bytes, pos.abs(), bits)),
    {
        self.buf.read_u64(pos.absolute_bit(), bits)
    }

    /// Read a struct field value. Returns `None` when the field is not
    /// declared in the layout (Frozen2 omits zero-byte fields). The
    /// returned position and layout id let the caller continue
    /// resolving the field.
    pub fn field(&self, parent: Pos, parent_layout: &Layout, id: i16) -> (r: Option<FieldView>)
        ensures
            match r {
                Some(v) => parent_layout@.field(id) == Some(v.field) && v.pos == parent.at(v.field),
                None => parent_layout@.field(id) is None,
            },
    {
        match parent_layout.field(id) {
            Some(f) => Some(FieldView { field: *f, pos: parent.child(f) }),
            None => None,
        }
    }

    /// Read an integral field of a struct. Missing fields decode as zero
    /// (Frozen2 elides zero-byte fields).
    pub fn int_or_zero(&self, pos: Pos, layout: &Layout, id: i16) -> (r: Result<u64, Error>)
        ensures
            outcome(r, self@.int_or_zero(pos, layout@, id)),
    {
        match layout.field(id) {
            Some(field) => match self.schema.layout(field.layout_id) {
                Ok(l) => self.buf.read_u64(pos.child(field).absolute_bit(), l.bits as u32),
                Err(e) => Err(e),
            },
            None => Ok(0),
        }
    }

    /// Resolve a range or string from a parent struct field. Applies
    /// the relative-distance rule: `data_byte = range_pos.byte + distance`.
    ///
    /// Either of `distance` (field 1) or `count` (field 2) may be
    /// elided by the writer when its value is the default (zero); the
    /// reader treats a missing field as the corresponding default.
    pub fn read_range(&self, range_pos: Pos, range_layout: &Layout) -> (r: Result<RangeView, Error>)
        ensures
            outcome(r, self@.range(range_pos, range_layout@)),
    {
        let count: u64 = match self.int_or_zero(range_pos, range_layout, 2) {
            Ok(v) => v,
            Err(e) => {
                return Err(e);
            },
        };
        let distance: u64 = if count == 0 {
            0
        } else {
            match self.int_or_zero(range_pos, range_layout, 1) {
                Ok(v) => v,
                Err(e) => {
                    return Err(e);
                },
            }
        };
        let data_byte: u64 = match range_pos.byte.checked_add(distance) {
            Some(v) => v,
            None => {
                return Err(decode_error("frozen2", "range distance overflow"));
            },
        };
        let item_layout_id: Option<i16> = match range_layout.field(3) {
            Some(f) => Some(f.layout_id),
            None => None,
        };
        Ok(RangeView { data_byte, count, item_layout_id })
    }

    /// Read an optional value: `(isset, value)`. The value layout may
    /// be elided when the value type carries no storage; in that case
    /// [`OptionalView::value_layout_id`] is `None` and the caller
    /// should treat a `present` optional as carrying the default value
    /// of its type.
    pub fn read_optional(&self, opt_pos: Pos, opt_layout: &Layout) -> (r: Result<
        OptionalView,
        Error,
    >)
        ensures
            outcome(r, self@.optional(opt_pos, opt_layout@)),
    {
        let isset_field: &Field = match opt_layout.field(1) {
            Some(f) => f,
            None => {
                return Err(missing_field(1));
            },
        };
        let present: bool = match self.buf.read_bool(opt_pos.child(isset_field).absolute_bit()) {
            Ok(b) => b,
            Err(e) => {
                return Err(e);
            },
        };
        if let Some(value_field) = opt_layout.field(2) {
            Ok(
                OptionalView {
                    present,
                    value_pos: opt_pos.child(value_field),
                    value_layout_id: Some(value_field.layout_id),
                },
            )
        } else {
            Ok(OptionalView { present, value_pos: opt_pos, value_layout_id: None })
        }
    }

    /// Resolve a string/binary range to its raw bytes inside the
    /// underlying buffer.
    pub fn read_string_bytes(&self, range_pos: Pos, range_layout: &Layout) -> (r: Result<
        &'a [u8],
        Error,
    >)
        ensures
            outcome(r, self@.string_bytes(range_pos, range_layout@)),
    {
        let range: RangeView = match self.read_range(range_pos, range_layout) {
            Ok(v) => v,
            Err(e) => {
                return Err(e);
            },
        };
        let wide_end: u128 = range.data_byte as u128 + range.count as u128;
        if wide_end > usize::MAX as u128 {
            return Err(decode_error("frozen2", "string slice overflow"));
        }
        let start: usize = range.data_byte as usize;
        let end: usize = wide_end as usize;
        let bytes: &'a [u8] = self.buf.bytes();
        if end > bytes.len() {
            return Err(
                Error::Decode {
                    codec: "frozen2",
                    message: Text::of("string slice ").num(start as u64).str("..").num(
                        end as u64,
                    ).str(" runs past buffer of ").num(bytes.len() as u64).str(" bytes").done(),
                },
            );
        }
        Ok(vstd::slice::slice_subrange(bytes, start, end))
    }

    /// Position of the `i`th element in a resolved range. For arrays
    /// with byte-sized items the element advances by `item.size`
    /// bytes; for inline integral items it advances by `item.bits`
    /// bits.
    pub fn element_pos(&self, range: RangeView, i: u64) -> (r: Result<Pos, Error>)
        ensures
            outcome(r, self@.element(range, i)),
    {
        let item_id: i16 = match range.item_layout_id {
            Some(id) => id,
            None => {
                return match range.data_byte.checked_add(i) {
                    Some(byte) => Ok(Pos { byte, bit: 0 }),
                    None => Err(decode_error("frozen2", "string element offset overflow")),
                };
            },
        };
        let item_layout: &Layout = match self.schema.layout(item_id) {
            Ok(l) => l,
            Err(e) => {
                return Err(e);
            },
        };
        if item_layout.size > 0 {
            let off: u64 = match i.checked_mul(item_layout.size as u64) {
                Some(off) => off,
                None => {
                    return Err(decode_error("frozen2", "array element byte offset overflow"));
                },
            };
            match range.data_byte.checked_add(off) {
                Some(byte) => Ok(Pos { byte, bit: 0 }),
                None => Err(decode_error("frozen2", "array element byte offset overflow")),
            }
        } else {
            let bits: u64 = match i.checked_mul(item_layout.bits as u64) {
                Some(bits) => bits,
                None => {
                    return Err(decode_error("frozen2", "array element bit offset overflow"));
                },
            };
            // The byte anchor must stay at the array's data start.
            // A nested range resolves its `distance` against `Pos::byte`,
            // so folding whole bytes out of `bits` here would move every
            // element's string data by that amount. `Pos::bit` is allowed
            // to exceed 7 for exactly this reason.
            Ok(Pos { byte: range.data_byte, bit: bits })
        }
    }
}

fn missing_field(id: i16) -> (e: Error)
    ensures
        e@ == frozen_error("expected sub-field with id "@ + dec_signed(id as int)),
{
    Error::Decode {
        codec: "frozen2",
        message: Text::of("expected sub-field with id ").signed(id as i64).done(),
    }
}

} // verus!
