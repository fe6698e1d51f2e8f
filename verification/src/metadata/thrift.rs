//! Thrift compact-protocol decoder.
//!
//! Implements the subset of the protocol required to read DwarFS
//! sections encoded with it: the Frozen2 schema, the history struct,
//! and the compression options blobs. Unknown fields are skipped, every
//! length and offset is bounds-checked, and no decode path allocates
//! more than the input justifies.

use crate::error::{Error, ErrorView};
use crate::text::{Text, dec, dec_signed};
use crate::utf8::{text_of, to_text};
use vstd::arithmetic::power2::*;
use vstd::prelude::*;

verus! {

/// Compact-protocol type codes (field-context and container-element
/// context).
#[derive(Debug, Clone, Copy, PartialEq, Eq, Structural)]
pub enum TType {
    Stop,
    BoolTrue,
    BoolFalse,
    I8,
    I16,
    I32,
    I64,
    Double,
    Binary,
    List,
    SetOf,
    MapOf,
    Struct,
}

/// A field header within a struct.
#[derive(Debug, Clone, Copy)]
pub struct FieldHeader {
    /// Compact-protocol type code for the field's value.
    pub ttype: TType,
    /// Resolved thrift field id (delta or explicit i16).
    pub id: i16,
}

/// The state of a reader.
#[verifier::ext_equal]
pub struct ThriftState {
    /// The whole input.
    pub bytes: Seq<u8>,
    /// How much of it was consumed.
    pub pos: nat,
    /// The field id that the next delta counts from.
    pub last_field_id: i16,
    /// The field ids of the enclosing structs.
    pub stack: Seq<i16>,
}

impl ThriftState {
    /// The start of an input.
    pub open spec fn start(bytes: Seq<u8>) -> ThriftState {
        ThriftState { bytes, pos: 0, last_field_id: 0, stack: Seq::empty() }
    }

    /// The bytes not consumed yet.
    pub open spec fn left(self) -> nat {
        if self.pos < self.bytes.len() {
            (self.bytes.len() - self.pos) as nat
        } else {
            0
        }
    }

    pub open spec fn advance(self, n: nat) -> ThriftState {
        ThriftState { pos: self.pos + n, ..self }
    }

    pub open spec fn begin_struct(self) -> ThriftState {
        ThriftState { last_field_id: 0, stack: self.stack.push(self.last_field_id), ..self }
    }

    pub open spec fn end_struct(self) -> ThriftState {
        if self.stack.len() == 0 {
            ThriftState { last_field_id: 0, ..self }
        } else {
            ThriftState { last_field_id: self.stack.last(), stack: self.stack.drop_last(), ..self }
        }
    }

    /// Nothing is read twice: the input stays and the position moves on.
    pub open spec fn precedes(self, later: ThriftState) -> bool {
        later.bytes == self.bytes && self.pos <= later.pos && (self.pos <= self.bytes.len()
            ==> later.pos <= self.bytes.len())
    }
}

/// A decode failure of this module.
pub open spec fn thrift_error(message: Seq<char>) -> ErrorView {
    ErrorView::Decode { codec: "thrift"@, message }
}

/// A step of the reader: what it answers, and the state it leaves.
pub type Step<T> = (Result<T, ErrorView>, ThriftState);

/// The type for a code; only the low four bits count.
pub open spec fn type_of_code(code: u8) -> Result<TType, ErrorView> {
    let low = code % 16;
    if low == 0 {
        Ok(TType::Stop)
    } else if low == 1 {
        Ok(TType::BoolTrue)
    } else if low == 2 {
        Ok(TType::BoolFalse)
    } else if low == 3 {
        Ok(TType::I8)
    } else if low == 4 {
        Ok(TType::I16)
    } else if low == 5 {
        Ok(TType::I32)
    } else if low == 6 {
        Ok(TType::I64)
    } else if low == 7 {
        Ok(TType::Double)
    } else if low == 8 {
        Ok(TType::Binary)
    } else if low == 9 {
        Ok(TType::List)
    } else if low == 10 {
        Ok(TType::SetOf)
    } else if low == 11 {
        Ok(TType::MapOf)
    } else if low == 12 {
        Ok(TType::Struct)
    } else {
        Err(thrift_error("unknown thrift type code "@ + dec(low as nat)))
    }
}

impl TType {
    /// The name of the variant.
    pub open spec fn text(self) -> Seq<char> {
        match self {
            TType::Stop => "Stop"@,
            TType::BoolTrue => "BoolTrue"@,
            TType::BoolFalse => "BoolFalse"@,
            TType::I8 => "I8"@,
            TType::I16 => "I16"@,
            TType::I32 => "I32"@,
            TType::I64 => "I64"@,
            TType::Double => "Double"@,
            TType::Binary => "Binary"@,
            TType::List => "List"@,
            TType::SetOf => "Set"@,
            TType::MapOf => "Map"@,
            TType::Struct => "Struct"@,
        }
    }

    /// The name of the variant.
    pub fn name(&self) -> (r: &'static str)
        ensures
            r@ == self.text(),
    {
        match self {
            TType::Stop => "Stop",
            TType::BoolTrue => "BoolTrue",
            TType::BoolFalse => "BoolFalse",
            TType::I8 => "I8",
            TType::I16 => "I16",
            TType::I32 => "I32",
            TType::I64 => "I64",
            TType::Double => "Double",
            TType::Binary => "Binary",
            TType::List => "List",
            TType::SetOf => "Set",
            TType::MapOf => "Map",
            TType::Struct => "Struct",
        }
    }

    fn from_code(code: u8) -> (r: Result<Self, Error>)
        ensures
            match r {
                Ok(t) => type_of_code(code) == Ok::<TType, ErrorView>(t),
                Err(e) => type_of_code(code) == Err::<TType, ErrorView>(e@),
            },
    {
        let low: u8 = code % 16;
        Ok(
            match low {
                0 => TType::Stop,
                1 => TType::BoolTrue,
                2 => TType::BoolFalse,
                3 => TType::I8,
                4 => TType::I16,
                5 => TType::I32,
                6 => TType::I64,
                7 => TType::Double,
                8 => TType::Binary,
                9 => TType::List,
                10 => TType::SetOf,
                11 => TType::MapOf,
                12 => TType::Struct,
                _ => {
                    return Err(
                        decode(Text::of("unknown thrift type code ").num(low as u64)),
                    );
                },
            },
        )
    }
}

/// One byte.
pub open spec fn byte_step(st: ThriftState) -> Step<u8> {
    if st.pos < st.bytes.len() {
        (Ok(st.bytes[st.pos as int]), st.advance(1))
    } else {
        (Err(thrift_error("unexpected end of thrift input"@)), st)
    }
}

/// `len` bytes in a row.
pub open spec fn slice_step(st: ThriftState, len: nat) -> Step<Seq<u8>> {
    if st.pos + len > usize::MAX {
        (Err(thrift_error("length overflow in thrift input"@)), st)
    } else if st.pos + len > st.bytes.len() {
        (
            Err(
                thrift_error(
                    "thrift slice of "@ + dec(len) + " bytes at "@ + dec(st.pos)
                        + " runs past end"@,
                ),
            ),
            st,
        )
    } else {
        (Ok(st.bytes.subrange(st.pos as int, (st.pos + len) as int)), st.advance(len))
    }
}

/// A LEB128 number, seven bits per byte, low bits first. `i` bytes were
/// read and gave `acc`. At most ten bytes belong to a number; bits above
/// the 64th are dropped.
pub open spec fn varint_from(st: ThriftState, i: nat, acc: nat) -> Step<u64>
    decreases 10 - i,
{
    if i >= 10 {
        (Err(thrift_error("varint too long"@)), st)
    } else {
        match byte_step(st) {
            (Ok(b), next) => {
                let sum = acc + (b % 128) as nat * pow2(7 * i);
                if b < 128 {
                    (Ok((sum % 0x1_0000_0000_0000_0000) as u64), next)
                } else {
                    varint_from(next, i + 1, sum)
                }
            },
            (Err(e), next) => (Err(e), next),
        }
    }
}

/// An unsigned LEB128 number.
pub open spec fn varint_step(st: ThriftState) -> Step<u64> {
    varint_from(st, 0, 0)
}

/// The signed number that zigzag encoding maps to `v`: 0, -1, 1, -2, ...
pub open spec fn zigzag(v: u64) -> i64 {
    if v % 2 == 0 {
        (v / 2) as i64
    } else {
        (-((v / 2) as int) - 1) as i64
    }
}

/// The zigzag encoding of `n`.
pub open spec fn zigzag_encode(n: i64) -> u64 {
    if n >= 0 {
        (2 * n) as u64
    } else {
        (-2 * n - 1) as u64
    }
}

/// Zigzag decoding undoes zigzag encoding.
pub proof fn lemma_zigzag_roundtrip(n: i64)
    ensures
        zigzag(zigzag_encode(n)) == n,
{
}

/// The LEB128 encoding of `v`.
pub open spec fn varint_encode(v: nat) -> Seq<u8>
    decreases v,
{
    if v < 128 {
        seq![v as u8]
    } else {
        seq![(v % 128 + 128) as u8] + varint_encode(v / 128)
    }
}

proof fn lemma_varint_from_encode(st: ThriftState, i: nat, acc: nat, v: nat, tail: Seq<u8>)
    requires
        i < 10,
        acc + v * pow2(7 * i) < 0x1_0000_0000_0000_0000,
        st.pos <= st.bytes.len(),
        st.bytes.skip(st.pos as int) == varint_encode(v) + tail,
        i > 0 ==> v > 0,
    ensures
        varint_from(st, i, acc) == (
            Ok::<u64, ErrorView>((acc + v * pow2(7 * i)) as u64),
            st.advance(varint_encode(v).len()),
        ),
    decreases v,
{
    let rest = st.bytes.skip(st.pos as int);
    let b = rest[0];
    assert(varint_encode(v).len() >= 1);
    assert(rest.len() == varint_encode(v).len() + tail.len());
    assert(st.bytes[st.pos as int] == rest[0]);
    lemma_pow2_pos(7 * i);
    if v >= 128 {
        let next = st.advance(1);
        let p = pow2(7 * i) as int;
        let q = pow2(7 * (i + 1)) as int;
        lemma_pow2_adds(7 * i, 7);
        lemma2_to64();
        assert(7 * (i + 1) == 7 * i + 7);
        assert(q == p * 128);
        assert((v % 128) * p + (v / 128) * q == v * p) by (nonlinear_arith)
            requires
                q == p * 128,
                v >= 0,
        ;
        assert(b == (v % 128 + 128) as u8);
        assert(next.bytes.skip(next.pos as int) == rest.skip(1));
        assert(rest.skip(1) == varint_encode(v / 128) + tail);
        assert(varint_encode(v / 128).len() + 1 == varint_encode(v).len());
        // Ten bytes carry seventy bits, so a number below 2^64 ends in time.
        assert(i + 1 < 10) by {
            if i >= 9 {
                lemma_varint_reach(i, v);
                assert(v * pow2(7 * i) >= 0x1_0000_0000_0000_0000);
            }
        }
        lemma_varint_from_encode(
            next,
            i + 1,
            acc + (v % 128) * pow2(7 * i),
            v / 128,
            tail,
        );
    } else {
        assert(b == v);
        assert(varint_encode(v).len() == 1);
    }
}

proof fn lemma_varint_reach(i: nat, v: nat)
    requires
        i >= 9,
        v >= 128,
    ensures
        v * pow2(7 * i) >= 0x1_0000_0000_0000_0000,
{
    lemma2_to64();
    lemma2_to64_rest();
    lemma_pow2_adds(7, 7 * i);
    lemma_pow2_adds(64, (7 + 7 * i - 64) as nat);
    lemma_pow2_pos((7 + 7 * i - 64) as nat);
    assert(pow2(7) * pow2(7 * i) >= pow2(64)) by (nonlinear_arith)
        requires
            pow2(7) * pow2(7 * i) == pow2(64) * pow2((7 + 7 * i - 64) as nat),
            pow2((7 + 7 * i - 64) as nat) >= 1,
    ;
    assert(v * pow2(7 * i) >= 128 * pow2(7 * i)) by (nonlinear_arith)
        requires
            v >= 128,
    ;
}

/// Reading an encoded number gives it back, whatever follows it.
pub proof fn lemma_varint_roundtrip(v: u64, tail: Seq<u8>)
    ensures
        ({
            let st = ThriftState::start(varint_encode(v as nat) + tail);
            varint_step(st) == (
                Ok::<u64, ErrorView>(v),
                st.advance(varint_encode(v as nat).len()),
            )
        }),
{
    lemma2_to64();
    let st = ThriftState::start(varint_encode(v as nat) + tail);
    assert(st.bytes.skip(0) == varint_encode(v as nat) + tail);
    assert(v as nat * pow2(0) == v);
    lemma_varint_from_encode(st, 0, 0, v as nat, tail);
}

/// An encoded number is read wherever it comes next.
pub proof fn lemma_varint_stands(st: ThriftState, v: u64)
    requires
        crate::metadata::wire::comes_next(st, varint_encode(v as nat)),
    ensures
        varint_step(st) == (Ok::<u64, ErrorView>(v), st.advance(varint_encode(v as nat).len())),
{
    lemma2_to64();
    let code = varint_encode(v as nat);
    let tail = st.bytes.skip((st.pos + code.len()) as int);
    assert(st.bytes.skip(st.pos as int) =~= code + tail) by {
        assert forall|i: int| 0 <= i < code.len() implies st.bytes[st.pos + i] == code[i] by {
            assert(st.bytes.subrange(st.pos as int, (st.pos + code.len()) as int)[i] == code[i]);
        }
    }
    assert(v as nat * pow2(0) == v);
    lemma_varint_from_encode(st, 0, 0, v as nat, tail);
}

/// A zigzag number.
pub open spec fn i64_step(st: ThriftState) -> Step<i64> {
    match varint_step(st) {
        (Ok(v), next) => (Ok(zigzag(v)), next),
        (Err(e), next) => (Err(e), next),
    }
}

/// A zigzag number that must fit 16 bits.
pub open spec fn i16_step(st: ThriftState) -> Step<i16> {
    match i64_step(st) {
        (Ok(v), next) => if i16::MIN <= v <= i16::MAX {
            (Ok(v as i16), next)
        } else {
            (
                Err(thrift_error("value "@ + dec_signed(v as int) + " out of range for i16"@)),
                next,
            )
        },
        (Err(e), next) => (Err(e), next),
    }
}

/// A zigzag number that must fit 32 bits.
pub open spec fn i32_step(st: ThriftState) -> Step<i32> {
    match i64_step(st) {
        (Ok(v), next) => if i32::MIN <= v <= i32::MAX {
            (Ok(v as i32), next)
        } else {
            (
                Err(thrift_error("value "@ + dec_signed(v as int) + " out of range for i32"@)),
                next,
            )
        },
        (Err(e), next) => (Err(e), next),
    }
}

/// One byte read as a signed number.
pub open spec fn i8_step(st: ThriftState) -> Step<i8> {
    match byte_step(st) {
        (Ok(b), next) => (
            Ok(
                if b < 128 {
                    b as i8
                } else {
                    (b - 256) as i8
                },
            ),
            next,
        ),
        (Err(e), next) => (Err(e), next),
    }
}

/// A length and that many bytes.
pub open spec fn binary_step(st: ThriftState) -> Step<Seq<u8>> {
    match varint_step(st) {
        (Ok(len), next) => if len > usize::MAX {
            (
                Err(
                    thrift_error(
                        "binary length "@ + dec(len as nat) + " does not fit in usize"@,
                    ),
                ),
                next,
            )
        } else {
            slice_step(next, len as nat)
        },
        (Err(e), next) => (Err(e), next),
    }
}

/// A binary that must be UTF-8.
pub open spec fn string_step(st: ThriftState) -> Step<Seq<char>> {
    match binary_step(st) {
        (Ok(bytes), next) => match text_of(bytes) {
            Some(text) => (Ok(text), next),
            None => (Err(thrift_error("non-utf8 thrift string"@)), next),
        },
        (Err(e), next) => (Err(e), next),
    }
}

/// An element type and a count.
pub open spec fn list_header_step(st: ThriftState) -> Step<(TType, u32)> {
    match byte_step(st) {
        (Ok(header), next) => match type_of_code(header) {
            Ok(etype) => if header / 16 == 15 {
                match varint_step(next) {
                    (Ok(big), last) => if big > u32::MAX {
                        (
                            Err(
                                thrift_error(
                                    "list length "@ + dec(big as nat) + " exceeds u32"@,
                                ),
                            ),
                            last,
                        )
                    } else {
                        (Ok((etype, big as u32)), last)
                    },
                    (Err(e), last) => (Err(e), last),
                }
            } else {
                (Ok((etype, (header / 16) as u32)), next)
            },
            Err(e) => (Err(e), next),
        },
        (Err(e), next) => (Err(e), next),
    }
}

/// Key and value types and a count. Empty maps omit the types.
pub open spec fn map_header_step(st: ThriftState) -> Step<(TType, TType, u32)> {
    match varint_step(st) {
        (Ok(count), next) => if count > u32::MAX {
            (Err(thrift_error("map length "@ + dec(count as nat) + " exceeds u32"@)), next)
        } else if count == 0 {
            (Ok((TType::Stop, TType::Stop, 0)), next)
        } else {
            match byte_step(next) {
                (Ok(kv), last) => match type_of_code(kv / 16) {
                    Ok(key) => match type_of_code(kv % 16) {
                        Ok(val) => (Ok((key, val, count as u32)), last),
                        Err(e) => (Err(e), last),
                    },
                    Err(e) => (Err(e), last),
                },
                (Err(e), last) => (Err(e), last),
            }
        },
        (Err(e), next) => (Err(e), next),
    }
}

/// The next field of the current struct, or none at its end. A nonzero
/// high half counts from the last id; a zero one has the id follow.
pub open spec fn field_header_step(st: ThriftState) -> Step<Option<FieldHeader>> {
    match byte_step(st) {
        (Ok(byte), next) => if byte == 0 {
            (Ok(None), next)
        } else {
            match type_of_code(byte) {
                Ok(ttype) => if byte / 16 == 0 {
                    match i16_step(next) {
                        (Ok(id), last) => (
                            Ok(Some(FieldHeader { ttype, id })),
                            ThriftState { last_field_id: id, ..last },
                        ),
                        (Err(e), last) => (Err(e), last),
                    }
                } else if next.last_field_id + byte / 16 > i16::MAX {
                    (Err(thrift_error("field id delta overflow"@)), next)
                } else {
                    let id = (next.last_field_id + byte / 16) as i16;
                    (
                        Ok(Some(FieldHeader { ttype, id })),
                        ThriftState { last_field_id: id, ..next },
                    )
                },
                Err(e) => (Err(e), next),
            }
        },
        (Err(e), next) => (Err(e), next),
    }
}

/// Pass over a value of the given type.
pub open spec fn skip_step(st: ThriftState, ttype: TType) -> Step<()>
    decreases st.left(), 0nat,
{
    match ttype {
        TType::Stop | TType::BoolTrue | TType::BoolFalse => (Ok(()), st),
        TType::I8 => done(byte_step(st)),
        TType::I16 | TType::I32 | TType::I64 => done(varint_step(st)),
        TType::Double => done(slice_step(st, 8)),
        TType::Binary => done(binary_step(st)),
        TType::List | TType::SetOf => match list_header_step(st) {
            (Ok((etype, count)), next) => if next.left() < st.left() {
                skip_elements_step(next, etype, count as nat)
            } else {
                (Ok(()), next)
            },
            (Err(e), next) => (Err(e), next),
        },
        TType::MapOf => match map_header_step(st) {
            (Ok((kt, vt, count)), next) => if next.left() < st.left() {
                skip_pairs_step(next, kt, vt, count as nat)
            } else {
                (Ok(()), next)
            },
            (Err(e), next) => (Err(e), next),
        },
        TType::Struct => match field_header_step(st.begin_struct()) {
            (Ok(None), next) => (Ok(()), next.end_struct()),
            (Ok(Some(field)), next) => if next.left() < st.left() {
                skip_fields_step(next, field.ttype)
            } else {
                (Ok(()), next)
            },
            (Err(e), next) => (Err(e), next),
        },
    }
}

/// Pass over a field's value and the fields after it, to the end of the
/// struct.
pub open spec fn skip_fields_step(st: ThriftState, ttype: TType) -> Step<()>
    decreases st.left(), 1nat,
{
    match skip_step(st, ttype) {
        (Ok(_), mid) => match field_header_step(mid) {
            (Ok(None), next) => (Ok(()), next.end_struct()),
            (Ok(Some(field)), next) => if next.left() < st.left() {
                skip_fields_step(next, field.ttype)
            } else {
                (Ok(()), next)
            },
            (Err(e), next) => (Err(e), next),
        },
        (Err(e), mid) => (Err(e), mid),
    }
}

/// Pass over one container element. Container booleans take one byte.
pub open spec fn skip_element_step(st: ThriftState, ttype: TType) -> Step<()>
    decreases st.left(), 1nat,
{
    match ttype {
        TType::BoolTrue | TType::BoolFalse => done(byte_step(st)),
        _ => skip_step(st, ttype),
    }
}

/// Pass over `count` container elements.
pub open spec fn skip_elements_step(st: ThriftState, etype: TType, count: nat) -> Step<()>
    decreases st.left(), count + 2,
{
    if count == 0 {
        (Ok(()), st)
    } else {
        match skip_element_step(st, etype) {
            (Ok(_), next) => if next.left() <= st.left() {
                skip_elements_step(next, etype, (count - 1) as nat)
            } else {
                (Ok(()), next)
            },
            (Err(e), next) => (Err(e), next),
        }
    }
}

/// Pass over `count` pairs of container elements.
pub open spec fn skip_pairs_step(st: ThriftState, kt: TType, vt: TType, count: nat) -> Step<()>
    decreases st.left(), count + 2,
{
    if count == 0 {
        (Ok(()), st)
    } else {
        match skip_element_step(st, kt) {
            (Ok(_), mid) => if mid.left() <= st.left() {
                match skip_element_step(mid, vt) {
                    (Ok(_), next) => if next.left() <= mid.left() {
                        skip_pairs_step(next, kt, vt, (count - 1) as nat)
                    } else {
                        (Ok(()), next)
                    },
                    (Err(e), next) => (Err(e), next),
                }
            } else {
                (Ok(()), mid)
            },
            (Err(e), mid) => (Err(e), mid),
        }
    }
}

/// A step with its value dropped.
pub open spec fn done<T>(step: Step<T>) -> Step<()> {
    match step {
        (Ok(_), next) => (Ok(()), next),
        (Err(e), next) => (Err(e), next),
    }
}

proof fn lemma_varint_moves(st: ThriftState, i: nat, acc: nat)
    ensures
        st.precedes(varint_from(st, i, acc).1),
        varint_from(st, i, acc).0 is Ok ==> varint_from(st, i, acc).1.pos > st.pos,
        varint_from(st, i, acc).1.stack == st.stack,
        varint_from(st, i, acc).1.last_field_id == st.last_field_id,
    decreases 10 - i,
{
    if i < 10 {
        if let (Ok(b), next) = byte_step(st) {
            if b >= 128 {
                lemma_varint_moves(next, i + 1, acc + (b % 128) as nat * pow2(7 * i));
            }
        }
    }
}

/// Every reading step keeps the input and moves forward; headers and
/// numbers take at least one byte.
pub proof fn lemma_steps_move(st: ThriftState)
    requires
        st.pos <= st.bytes.len(),
    ensures
        st.precedes(varint_step(st).1),
        varint_step(st).0 is Ok ==> varint_step(st).1.pos > st.pos,
        st.precedes(i64_step(st).1),
        st.precedes(i16_step(st).1),
        st.precedes(i32_step(st).1),
        st.precedes(binary_step(st).1),
        st.precedes(string_step(st).1),
        st.precedes(list_header_step(st).1),
        list_header_step(st).0 is Ok ==> list_header_step(st).1.pos > st.pos,
        st.precedes(map_header_step(st).1),
        map_header_step(st).0 is Ok ==> map_header_step(st).1.pos > st.pos,
        st.precedes(field_header_step(st).1),
        field_header_step(st).0 is Ok ==> field_header_step(st).1.pos > st.pos,
{
    lemma_varint_moves(st, 0, 0);
    if st.pos < st.bytes.len() {
        lemma_varint_moves(st.advance(1), 0, 0);
    }
}

/// Skipping keeps the input and moves forward.
pub proof fn lemma_skip_moves(st: ThriftState, ttype: TType)
    requires
        st.pos <= st.bytes.len(),
    ensures
        st.precedes(skip_step(st, ttype).1),
    decreases st.left(), 0nat,
{
    lemma_steps_move(st);
    match ttype {
        TType::List | TType::SetOf => {
            if let (Ok((etype, count)), next) = list_header_step(st) {
                lemma_skip_elements_moves(next, etype, count as nat);
            }
        },
        TType::MapOf => {
            if let (Ok((kt, vt, count)), next) = map_header_step(st) {
                lemma_skip_pairs_moves(next, kt, vt, count as nat);
            }
        },
        TType::Struct => {
            lemma_steps_move(st.begin_struct());
            if let (Ok(Some(field)), next) = field_header_step(st.begin_struct()) {
                lemma_skip_fields_moves(next, field.ttype);
            }
        },
        _ => {},
    }
}

pub proof fn lemma_skip_fields_moves(st: ThriftState, ttype: TType)
    requires
        st.pos <= st.bytes.len(),
    ensures
        st.precedes(skip_fields_step(st, ttype).1),
    decreases st.left(), 1nat,
{
    lemma_skip_moves(st, ttype);
    if let (Ok(_), mid) = skip_step(st, ttype) {
        lemma_steps_move(mid);
        if let (Ok(Some(field)), next) = field_header_step(mid) {
            lemma_skip_fields_moves(next, field.ttype);
        }
    }
}

pub proof fn lemma_skip_element_moves(st: ThriftState, ttype: TType)
    requires
        st.pos <= st.bytes.len(),
    ensures
        st.precedes(skip_element_step(st, ttype).1),
    decreases st.left(), 1nat,
{
    lemma_skip_moves(st, ttype);
}

pub proof fn lemma_skip_elements_moves(st: ThriftState, etype: TType, count: nat)
    requires
        st.pos <= st.bytes.len(),
    ensures
        st.precedes(skip_elements_step(st, etype, count).1),
    decreases st.left(), count + 2,
{
    if count > 0 {
        lemma_skip_element_moves(st, etype);
        if let (Ok(_), next) = skip_element_step(st, etype) {
            lemma_skip_elements_moves(next, etype, (count - 1) as nat);
        }
    }
}

pub proof fn lemma_skip_pairs_moves(st: ThriftState, kt: TType, vt: TType, count: nat)
    requires
        st.pos <= st.bytes.len(),
    ensures
        st.precedes(skip_pairs_step(st, kt, vt, count).1),
    decreases st.left(), count + 2,
{
    if count > 0 {
        lemma_skip_element_moves(st, kt);
        if let (Ok(_), mid) = skip_element_step(st, kt) {
            lemma_skip_element_moves(mid, vt);
            if let (Ok(_), next) = skip_element_step(mid, vt) {
                lemma_skip_pairs_moves(next, kt, vt, (count - 1) as nat);
            }
        }
    }
}

/// Compact-protocol reader over a borrowed slice.
pub struct ThriftReader<'a> {
    bytes: &'a [u8],
    pos: usize,
    /// Per-struct frame of the most recently read field id (resets on
    /// every nested struct).
    last_field_id: i16,
    stack: Vec<i16>,
}

impl<'a> View for ThriftReader<'a> {
    type V = ThriftState;

    closed spec fn view(&self) -> ThriftState {
        ThriftState {
            bytes: self.bytes@,
            pos: self.pos as nat,
            last_field_id: self.last_field_id,
            stack: self.stack@,
        }
    }
}

/// Whether an executable step did what its model says.
pub open spec fn stepped<T: View>(
    r: Result<T, Error>,
    after: ThriftState,
    want: Step<T::V>,
) -> bool {
    &&& after == want.1
    &&& match r {
        Ok(v) => want.0 == Ok::<T::V, ErrorView>(v@),
        Err(e) => want.0 == Err::<T::V, ErrorView>(e@),
    }
}

impl<'a> ThriftReader<'a> {
    /// The position lies inside the input.
    pub closed spec fn wf(&self) -> bool {
        self.pos <= self.bytes.len()
    }

    pub proof fn lemma_wf(&self)
        ensures
            self.wf() ==> self@.pos <= self@.bytes.len() <= usize::MAX,
    {
    }

    /// Wrap a byte slice in a new reader.
    pub fn new(bytes: &'a [u8]) -> (r: Self)
        ensures
            r.wf(),
            r@ == ThriftState::start(bytes@),
    {
        Self { bytes, pos: 0, last_field_id: 0, stack: Vec::new() }
    }

    /// Number of bytes consumed so far.
    pub fn position(&self) -> (r: usize)
        ensures
            r == self@.pos,
    {
        self.pos
    }

    fn read_byte(&mut self) -> (r: Result<u8, Error>)
        requires
            old(self).wf(),
        ensures
            final(self).wf(),
            stepped(r, final(self)@, byte_step(old(self)@)),
    {
        if self.pos < self.bytes.len() {
            let b: u8 = self.bytes[self.pos];
            self.pos = self.pos + 1;
            Ok(b)
        } else {
            Err(decode(Text::of("unexpected end of thrift input")))
        }
    }

    fn read_slice(&mut self, len: usize) -> (r: Result<&'a [u8], Error>)
        requires
            old(self).wf(),
        ensures
            final(self).wf(),
            stepped(r, final(self)@, slice_step(old(self)@, len as nat)),
    {
        let end: usize = match self.pos.checked_add(len) {
            Some(end) => end,
            None => {
                return Err(decode(Text::of("length overflow in thrift input")));
            },
        };
        if end > self.bytes.len() {
            return Err(
                decode(
                    Text::of("thrift slice of ").num(len as u64).str(" bytes at ").num(
                        self.pos as u64,
                    ).str(" runs past end"),
                ),
            );
        }
        let s: &'a [u8] = vstd::slice::slice_subrange(self.bytes, self.pos, end);
        self.pos = end;
        Ok(s)
    }

    /// Read an unsigned varint (LEB128).
    pub fn read_varint_u64(&mut self) -> (r: Result<u64, Error>)
        requires
            old(self).wf(),
        ensures
            final(self).wf(),
            stepped(r, final(self)@, varint_step(old(self)@)),
    {
        let mut acc: u128 = 0;
        let mut scale: u128 = 1;
        let mut i: usize = 0;
        proof {
            lemma2_to64();
            lemma2_to64_rest();
            lemma_pow2_adds(63, 7);
        }
        while i < 10
            invariant
                i <= 10,
                self.wf(),
                pow2(0) == 1,
                pow2(7) == 128,
                pow2(70) == 0x40_0000_0000_0000_0000,
                scale == pow2(7 * i as nat),
                acc < scale,
                varint_step(old(self)@) == varint_from(self@, i as nat, acc as nat),
            decreases 10 - i,
        {
            let b: u8 = match self.read_byte() {
                Ok(b) => b,
                Err(e) => {
                    return Err(e);
                },
            };
            let chunk: u8 = b % 128;
            proof {
                lemma_pow2_adds(7 * i as nat, 7);
                assert(7 * (i + 1) == 7 * i + 7);
                if 7 * i + 7 < 70 {
                    lemma_pow2_strictly_increases((7 * i + 7) as nat, 70);
                }
                assert(chunk * scale <= 127 * scale) by (nonlinear_arith)
                    requires
                        chunk <= 127,
                ;
            }
            acc = acc + (chunk as u128) * scale;
            if b < 128 {
                return Ok((acc % 0x1_0000_0000_0000_0000) as u64);
            }
            scale = scale * 128;
            i = i + 1;
        }
        Err(decode(Text::of("varint too long")))
    }

    fn read_zigzag_i64(&mut self) -> (r: Result<i64, Error>)
        requires
            old(self).wf(),
        ensures
            final(self).wf(),
            stepped(r, final(self)@, i64_step(old(self)@)),
    {
        match self.read_varint_u64() {
            Ok(v) => if v % 2 == 0 {
                Ok((v / 2) as i64)
            } else {
                Ok(-((v / 2) as i64) - 1)
            },
            Err(e) => Err(e),
        }
    }

    /// Read a signed i16 (zigzag varint).
    pub fn read_i16(&mut self) -> (r: Result<i16, Error>)
        requires
            old(self).wf(),
        ensures
            final(self).wf(),
            stepped(r, final(self)@, i16_step(old(self)@)),
    {
        match self.read_zigzag_i64() {
            Ok(v) => if -0x8000 <= v && v <= 0x7FFF {
                Ok(v as i16)
            } else {
                Err(decode(Text::of("value ").signed(v).str(" out of range for i16")))
            },
            Err(e) => Err(e),
        }
    }

    /// Read a signed i32 (zigzag varint).
    pub fn read_i32(&mut self) -> (r: Result<i32, Error>)
        requires
            old(self).wf(),
        ensures
            final(self).wf(),
            stepped(r, final(self)@, i32_step(old(self)@)),
    {
        match self.read_zigzag_i64() {
            Ok(v) => if -0x8000_0000 <= v && v <= 0x7FFF_FFFF {
                Ok(v as i32)
            } else {
                Err(decode(Text::of("value ").signed(v).str(" out of range for i32")))
            },
            Err(e) => Err(e),
        }
    }

    /// Read a signed i64 (zigzag varint).
    pub fn read_i64(&mut self) -> (r: Result<i64, Error>)
        requires
            old(self).wf(),
        ensures
            final(self).wf(),
            stepped(r, final(self)@, i64_step(old(self)@)),
    {
        self.read_zigzag_i64()
    }

    /// Read an i8 (single byte).
    pub fn read_i8(&mut self) -> (r: Result<i8, Error>)
        requires
            old(self).wf(),
        ensures
            final(self).wf(),
            stepped(r, final(self)@, i8_step(old(self)@)),
    {
        match self.read_byte() {
            Ok(b) => if b < 128 {
                Ok(b as i8)
            } else {
                Ok((b as i16 - 256) as i8)
            },
            Err(e) => Err(e),
        }
    }

    /// Read a binary blob (varint length + bytes).
    pub fn read_binary(&mut self) -> (r: Result<&'a [u8], Error>)
        requires
            old(self).wf(),
        ensures
            final(self).wf(),
            stepped(r, final(self)@, binary_step(old(self)@)),
    {
        let len: u64 = match self.read_varint_u64() {
            Ok(len) => len,
            Err(e) => {
                return Err(e);
            },
        };
        if len > usize::MAX as u64 {
            return Err(
                decode(Text::of("binary length ").num(len).str(" does not fit in usize")),
            );
        }
        self.read_slice(len as usize)
    }

    /// Read a UTF-8 string (binary + validate).
    pub fn read_string(&mut self) -> (r: Result<String, Error>)
        requires
            old(self).wf(),
        ensures
            final(self).wf(),
            stepped(r, final(self)@, string_step(old(self)@)),
    {
        match self.read_binary() {
            Ok(bytes) => match to_text(bytes) {
                Some(text) => Ok(text),
                None => Err(decode(Text::of("non-utf8 thrift string"))),
            },
            Err(e) => Err(e),
        }
    }

    /// Read a list header. Returns `(element_type, count)`.
    pub fn read_list_header(&mut self) -> (r: Result<(TType, u32), Error>)
        requires
            old(self).wf(),
        ensures
            final(self).wf(),
            final(self)@ == list_header_step(old(self)@).1,
            match r {
                Ok(v) => list_header_step(old(self)@).0 == Ok::<(TType, u32), ErrorView>(v),
                Err(e) => list_header_step(old(self)@).0 == Err::<(TType, u32), ErrorView>(e@),
            },
    {
        let header: u8 = match self.read_byte() {
            Ok(b) => b,
            Err(e) => {
                return Err(e);
            },
        };
        let etype: TType = match TType::from_code(header) {
            Ok(t) => t,
            Err(e) => {
                return Err(e);
            },
        };
        let small: u8 = header / 16;
        if small == 15 {
            match self.read_varint_u64() {
                Ok(big) => if big > u32::MAX as u64 {
                    Err(decode(Text::of("list length ").num(big).str(" exceeds u32")))
                } else {
                    Ok((etype, big as u32))
                },
                Err(e) => Err(e),
            }
        } else {
            Ok((etype, small as u32))
        }
    }

    /// Read a set header. Same encoding as a list.
    pub fn read_set_header(&mut self) -> (r: Result<(TType, u32), Error>)
        requires
            old(self).wf(),
        ensures
            final(self).wf(),
            final(self)@ == list_header_step(old(self)@).1,
            match r {
                Ok(v) => list_header_step(old(self)@).0 == Ok::<(TType, u32), ErrorView>(v),
                Err(e) => list_header_step(old(self)@).0 == Err::<(TType, u32), ErrorView>(e@),
            },
    {
        self.read_list_header()
    }

    /// Read a map header. Returns `(key_type, value_type, count)`.
    /// Empty maps omit the type byte entirely.
    pub fn read_map_header(&mut self) -> (r: Result<(TType, TType, u32), Error>)
        requires
            old(self).wf(),
        ensures
            final(self).wf(),
            final(self)@ == map_header_step(old(self)@).1,
            match r {
                Ok(v) => map_header_step(old(self)@).0 == Ok::<(TType, TType, u32), ErrorView>(v),
                Err(e) => map_header_step(old(self)@).0 == Err::<(TType, TType, u32), ErrorView>(
                    e@,
                ),
            },
    {
        let count: u64 = match self.read_varint_u64() {
            Ok(v) => v,
            Err(e) => {
                return Err(e);
            },
        };
        if count > u32::MAX as u64 {
            return Err(decode(Text::of("map length ").num(count).str(" exceeds u32")));
        }
        if count == 0 {
            return Ok((TType::Stop, TType::Stop, 0));
        }
        let kv: u8 = match self.read_byte() {
            Ok(b) => b,
            Err(e) => {
                return Err(e);
            },
        };
        let key: TType = match TType::from_code(kv / 16) {
            Ok(t) => t,
            Err(e) => {
                return Err(e);
            },
        };
        match TType::from_code(kv % 16) {
            Ok(val) => Ok((key, val, count as u32)),
            Err(e) => Err(e),
        }
    }

    /// Begin reading a nested struct. Pushes the current field-id
    /// frame and resets the delta counter.
    pub fn read_struct_begin(&mut self)
        requires
            old(self).wf(),
        ensures
            final(self).wf(),
            final(self)@ == old(self)@.begin_struct(),
    {
        self.stack.push(self.last_field_id);
        self.last_field_id = 0;
    }

    /// Finish reading a nested struct. Pops the field-id frame so the
    /// enclosing struct continues with its previous delta counter.
    pub fn read_struct_end(&mut self)
        requires
            old(self).wf(),
        ensures
            final(self).wf(),
            final(self)@ == old(self)@.end_struct(),
    {
        self.last_field_id = match self.stack.pop() {
            Some(id) => id,
            None => 0,
        };
    }

    /// Read the next field header in the current struct, or `None`
    /// when STOP is reached.
    pub fn read_field_header(&mut self) -> (r: Result<Option<FieldHeader>, Error>)
        requires
            old(self).wf(),
        ensures
            final(self).wf(),
            final(self)@ == field_header_step(old(self)@).1,
            match r {
                Ok(v) => field_header_step(old(self)@).0 == Ok::<Option<FieldHeader>, ErrorView>(
                    v,
                ),
                Err(e) => field_header_step(old(self)@).0 == Err::<Option<FieldHeader>, ErrorView>(
                    e@,
                ),
            },
    {
        let byte: u8 = match self.read_byte() {
            Ok(b) => b,
            Err(e) => {
                return Err(e);
            },
        };
        if byte == 0 {
            return Ok(None);
        }
        let ttype: TType = match TType::from_code(byte) {
            Ok(t) => t,
            Err(e) => {
                return Err(e);
            },
        };
        let delta: u8 = byte / 16;
        let id: i16 = if delta == 0 {
            match self.read_i16() {
                Ok(id) => id,
                Err(e) => {
                    return Err(e);
                },
            }
        } else {
            match self.last_field_id.checked_add(delta as i16) {
                Some(id) => id,
                None => {
                    return Err(decode(Text::of("field id delta overflow")));
                },
            }
        };
        self.last_field_id = id;
        Ok(Some(FieldHeader { ttype, id }))
    }

    /// Skip a value of the given type. Used to ignore unknown fields
    /// without reinterpreting them.
    pub fn skip_value(&mut self, ttype: TType) -> (r: Result<(), Error>)
        requires
            old(self).wf(),
        ensures
            final(self).wf(),
            stepped(r, final(self)@, skip_step(old(self)@, ttype)),
        decreases old(self)@.left(), 0nat,
    {
        proof {
            self.lemma_wf();
            lemma_steps_move(self@);
            lemma_steps_move(self@.begin_struct());
        }
        match ttype {
            TType::Stop | TType::BoolTrue | TType::BoolFalse => Ok(()),
            TType::I8 => match self.read_byte() {
                Ok(_) => Ok(()),
                Err(e) => Err(e),
            },
            TType::I16 | TType::I32 | TType::I64 => match self.read_varint_u64() {
                Ok(_) => Ok(()),
                Err(e) => Err(e),
            },
            TType::Double => match self.read_slice(8) {
                Ok(_) => Ok(()),
                Err(e) => Err(e),
            },
            TType::Binary => match self.read_binary() {
                Ok(_) => Ok(()),
                Err(e) => Err(e),
            },
            TType::List | TType::SetOf => match self.read_list_header() {
                Ok((etype, count)) => self.skip_elements(etype, count),
                Err(e) => Err(e),
            },
            TType::MapOf => match self.read_map_header() {
                Ok((kt, vt, count)) => self.skip_pairs(kt, vt, count),
                Err(e) => Err(e),
            },
            TType::Struct => {
                self.read_struct_begin();
                match self.read_field_header() {
                    Ok(None) => {
                        self.read_struct_end();
                        Ok(())
                    },
                    Ok(Some(field)) => self.skip_fields(field.ttype),
                    Err(e) => Err(e),
                }
            },
        }
    }

    /// Skip a field's value and the fields after it, to the end of the
    /// struct.
    fn skip_fields(&mut self, ttype: TType) -> (r: Result<(), Error>)
        requires
            old(self).wf(),
        ensures
            final(self).wf(),
            stepped(r, final(self)@, skip_fields_step(old(self)@, ttype)),
        decreases old(self)@.left(), 1nat,
    {
        let ghost start = self@;
        let mut next: TType = ttype;
        loop
            invariant
                self.wf(),
                start == old(self)@,
                start.precedes(self@),
                skip_fields_step(start, ttype) == skip_fields_step(self@, next),
            decreases self@.left(),
        {
            proof {
                self.lemma_wf();
                lemma_skip_moves(self@, next);
            }
            match self.skip_value(next) {
                Ok(()) => {},
                Err(e) => {
                    return Err(e);
                },
            }
            proof {
                self.lemma_wf();
                lemma_steps_move(self@);
            }
            match self.read_field_header() {
                Ok(None) => {
                    self.read_struct_end();
                    return Ok(());
                },
                Ok(Some(field)) => {
                    next = field.ttype;
                },
                Err(e) => {
                    return Err(e);
                },
            }
        }
    }

    /// Skip a single container element. Container booleans take one
    /// byte (unlike struct booleans which carry the value in the type
    /// code).
    fn skip_element(&mut self, ttype: TType) -> (r: Result<(), Error>)
        requires
            old(self).wf(),
        ensures
            final(self).wf(),
            stepped(r, final(self)@, skip_element_step(old(self)@, ttype)),
        decreases old(self)@.left(), 1nat,
    {
        match ttype {
            TType::BoolTrue | TType::BoolFalse => match self.read_byte() {
                Ok(_) => Ok(()),
                Err(e) => Err(e),
            },
            _ => self.skip_value(ttype),
        }
    }

    fn skip_elements(&mut self, etype: TType, count: u32) -> (r: Result<(), Error>)
        requires
            old(self).wf(),
        ensures
            final(self).wf(),
            stepped(r, final(self)@, skip_elements_step(old(self)@, etype, count as nat)),
        decreases old(self)@.left(), count + 2,
    {
        let mut left: u32 = count;
        let ghost start = self@;
        while left > 0
            invariant
                left <= count,
                self.wf(),
                start == old(self)@,
                start.precedes(self@),
                skip_elements_step(start, etype, count as nat) == skip_elements_step(
                    self@,
                    etype,
                    left as nat,
                ),
            decreases left,
        {
            proof {
                self.lemma_wf();
                lemma_skip_element_moves(self@, etype);
            }
            match self.skip_element(etype) {
                Ok(()) => {},
                Err(e) => {
                    return Err(e);
                },
            }
            left = left - 1;
        }
        Ok(())
    }

    fn skip_pairs(&mut self, kt: TType, vt: TType, count: u32) -> (r: Result<(), Error>)
        requires
            old(self).wf(),
        ensures
            final(self).wf(),
            stepped(r, final(self)@, skip_pairs_step(old(self)@, kt, vt, count as nat)),
        decreases old(self)@.left(), count + 2,
    {
        let mut left: u32 = count;
        let ghost start = self@;
        while left > 0
            invariant
                left <= count,
                self.wf(),
                start == old(self)@,
                start.precedes(self@),
                skip_pairs_step(start, kt, vt, count as nat) == skip_pairs_step(
                    self@,
                    kt,
                    vt,
                    left as nat,
                ),
            decreases left,
        {
            proof {
                self.lemma_wf();
                lemma_skip_element_moves(self@, kt);
            }
            match self.skip_element(kt) {
                Ok(()) => {},
                Err(e) => {
                    return Err(e);
                },
            }
            proof {
                self.lemma_wf();
                lemma_skip_element_moves(self@, vt);
            }
            match self.skip_element(vt) {
                Ok(()) => {},
                Err(e) => {
                    return Err(e);
                },
            }
            left = left - 1;
        }
        Ok(())
    }

    /// Read a single boolean element from a container.
    pub fn read_bool_element(&mut self) -> (r: Result<bool, Error>)
        requires
            old(self).wf(),
        ensures
            final(self).wf(),
            stepped(
                r,
                final(self)@,
                match byte_step(old(self)@) {
                    (Ok(b), next) => (Ok::<bool, ErrorView>(b != 0), next),
                    (Err(e), next) => (Err(e), next),
                },
            ),
    {
        match self.read_byte() {
            Ok(b) => Ok(b != 0),
            Err(e) => Err(e),
        }
    }
}

fn decode(message: Text) -> (e: Error)
    ensures
        e@ == thrift_error(message@),
{
    Error::Decode { codec: "thrift", message: message.done() }
}

} // verus!
