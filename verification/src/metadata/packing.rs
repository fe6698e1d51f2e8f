//! Where the metadata keeps its numbers.
//!
//! What the accessors answer, said bit by bit: a number is stored at a bit
//! of the blob that follows from the layouts, and an accessor gives that
//! number.

use crate::collect::{collect, lemma_collect_all};
use crate::error::ErrorView;
use crate::metadata::bitbuf::{bit_of, lemma_read_is_inside, lemma_read_spells_bits, stored_number};
use crate::metadata::frozen::{FrozenView, LayoutKind, Pos, RangeView, kind_of};
use crate::metadata::model::{
    Chunk, DirEntry, Directory, FrozenStruct, InodeData, Narrow, int_at, int_list_field, narrow_at,
    narrowed, optional_string_field, optional_u32_field, range_ints, string_field, u32_field,
    unpack_runs,
};
use crate::metadata::root::{MetadataView, origin, string_at, struct_at, text_at};
use crate::metadata::schema::{Field, LayoutView};
use crate::metadata::string_table::{sum_of, table_strings};
use crate::utf8::text_of;
use vstd::arithmetic::power2::*;
use vstd::prelude::*;

verus! {

/// How many bits behind the start of its struct a field stands. Offsets
/// are recorded in bytes, negative ones in bits.
pub open spec fn bits_in(field: Field) -> int {
    if field.offset < 0 {
        -(field.offset as int)
    } else {
        8 * field.offset as int
    }
}

/// The first bit of a position.
pub open spec fn first_bit(pos: Pos) -> int {
    8 * pos.byte + pos.bit
}

/// How many bits wide a field is.
pub open spec fn width(f: FrozenView, field: Field) -> nat {
    f.schema.layouts[field.layout_id].bits as nat
}

/// Whether the field `id` of the struct that starts at bit `at` was elided,
/// or lies inside the blob in at most 64 bits.
pub open spec fn is_stored(f: FrozenView, at: int, layout: LayoutView, id: i16) -> bool {
    layout.fields.contains_key(id) ==> {
        let field = layout.fields[id];
        &&& f.schema.layouts.contains_key(field.layout_id)
        &&& width(f, field) <= 64
        &&& at + bits_in(field) + width(f, field) <= 8 * f.bytes.len()
        &&& at + bits_in(field) + width(f, field) <= u64::MAX
    }
}

/// The number stored in the field `id` of the struct that starts at bit
/// `at`; zero where the field was elided.
pub open spec fn stored(f: FrozenView, at: int, layout: LayoutView, id: i16) -> nat {
    if layout.fields.contains_key(id) {
        let field = layout.fields[id];
        stored_number(f.bytes, at + bits_in(field), width(f, field))
    } else {
        0
    }
}

/// A field reads as the number that is stored in it.
pub proof fn lemma_field_reads_as_stored(f: FrozenView, pos: Pos, layout: LayoutView, id: i16)
    requires
        is_stored(f, first_bit(pos), layout, id),
    ensures
        f.int_or_zero(pos, layout, id) matches Ok(v) && v == stored(f, first_bit(pos), layout, id),
{
    if layout.fields.contains_key(id) {
        let field = layout.fields[id];
        let at = pos.at(field);
        assert(first_bit(at) == first_bit(pos) + bits_in(field));
        lemma_read_spells_bits(f.bytes, at.abs(), width(f, field) as u32);
    }
}

/// A range starts as many bytes behind its own byte as its first field
/// says, and has as many elements as its second says. An empty one starts
/// at its own byte.
pub proof fn lemma_range_is_where_stored(f: FrozenView, pos: Pos, layout: LayoutView)
    requires
        is_stored(f, first_bit(pos), layout, 1),
        is_stored(f, first_bit(pos), layout, 2),
        pos.byte + stored(f, first_bit(pos), layout, 1) <= u64::MAX,
    ensures
        f.range(pos, layout) matches Ok(range) && {
            let count = stored(f, first_bit(pos), layout, 2);
            &&& range.count == count
            &&& range.data_byte == pos.byte + (if count == 0 {
                0
            } else {
                stored(f, first_bit(pos), layout, 1)
            })
            &&& range.item_layout_id == (if layout.fields.contains_key(3) {
                Some(layout.fields[3].layout_id)
            } else {
                None
            })
        },
{
    lemma_field_reads_as_stored(f, pos, layout, 1);
    lemma_field_reads_as_stored(f, pos, layout, 2);
}

/// The bytes of a string are those that its distance and its length tell.
pub proof fn lemma_string_is_where_stored(f: FrozenView, pos: Pos, layout: LayoutView)
    requires
        is_stored(f, first_bit(pos), layout, 1),
        is_stored(f, first_bit(pos), layout, 2),
        pos.byte + stored(f, first_bit(pos), layout, 1) + stored(f, first_bit(pos), layout, 2)
            <= f.bytes.len() <= usize::MAX,
    ensures
        ({
            let start = pos.byte + stored(f, first_bit(pos), layout, 1);
            let len = stored(f, first_bit(pos), layout, 2);
            f.string_bytes(pos, layout) == Ok::<Seq<u8>, ErrorView>(
                f.bytes.subrange(start as int, (start + len) as int),
            )
        }),
{
    lemma_range_is_where_stored(f, pos, layout);
    let range = f.range(pos, layout)->Ok_0;
    let start = pos.byte + stored(f, first_bit(pos), layout, 1);
    let len = stored(f, first_bit(pos), layout, 2);
    if len == 0 {
        assert(f.bytes.subrange(start as int, start as int) =~= f.bytes.subrange(
            pos.byte as int,
            pos.byte as int,
        ));
    }
}

/// Item `i` of a list of integers, whose items have `w` bits each and no
/// bytes of their own, is the number in the `w` bits from bit `i * w` of
/// the list's data on.
pub proof fn lemma_items_stand_side_by_side(f: FrozenView, range: RangeView, id: i16, i: int)
    requires
        range.item_layout_id == Some(id),
        f.schema.layouts.contains_key(id),
        f.schema.layouts[id].size == 0,
        f.schema.layouts[id].bits > 0,
        range_ints(f, range, f.schema.layouts[id].bits as u32) is Ok,
        0 <= i < range.count,
    ensures
        ({
            let w = f.schema.layouts[id].bits as nat;
            let items = range_ints(f, range, w as u32)->Ok_0;
            &&& items.len() == range.count
            &&& w <= 64
            &&& 8 * range.data_byte + i * w + w <= 8 * f.bytes.len()
            &&& items[i] == stored_number(f.bytes, 8 * range.data_byte + i * w, w)
        }),
{
    let w = f.schema.layouts[id].bits as u32;
    let get = int_at(f, range, w);
    crate::collect::lemma_collect_ok(range.count as nat, get);
    let items = collect(range.count as nat, get)->Ok_0;
    assert(get(i as nat) == Ok::<u64, ErrorView>(items[i]));
    let pos = f.element(range, i as u64)->Ok_0;
    lemma_read_is_inside(f.bytes, pos.abs(), w);
}

/// Whether a layout is that of an array with items of the layout `item`:
/// it has the item field, none beyond it, and its distance is wider than
/// a flag.
pub open spec fn is_array_of(f: FrozenView, list: LayoutView, item: i16) -> bool {
    &&& list.fields.contains_key(3)
    &&& list.fields[3].layout_id == item
    &&& forall|id: i16| #[trigger] list.fields.contains_key(id) ==> 1 <= id <= 3
    &&& list.fields.contains_key(1) ==> {
        let distance = f.schema.layouts[list.fields[1].layout_id];
        &&& f.schema.layouts.contains_key(list.fields[1].layout_id)
        &&& distance.bits != 1
    }
    &&& f.schema.layouts.contains_key(item)
}

/// The position of the root struct's field `id`.
pub open spec fn root_pos(m: MetadataView, id: i16) -> Pos {
    let offset = m.root.fields[id].offset;
    if offset < 0 {
        Pos { byte: 0, bit: (-offset) as u64 }
    } else {
        Pos { byte: offset as u64, bit: 0 }
    }
}

/// The layout of the root struct's field `id`.
pub open spec fn root_layout(m: MetadataView, id: i16) -> LayoutView {
    m.frozen.schema.layouts[m.root.fields[id].layout_id]
}

/// How many elements the root list `id` has.
pub open spec fn stored_count(m: MetadataView, id: i16) -> nat {
    stored(m.frozen, first_bit(root_pos(m, id)), root_layout(m, id), 2)
}

/// Where the data of the root list `id` starts.
pub open spec fn data_start(m: MetadataView, id: i16) -> int {
    root_pos(m, id).byte + stored(m.frozen, first_bit(root_pos(m, id)), root_layout(m, id), 1)
}

/// Whether the root field `id` is a list of items of the layout `item` that
/// stands inside the blob.
pub open spec fn is_root_list(m: MetadataView, id: i16, item: i16) -> bool {
    let at = first_bit(root_pos(m, id));
    &&& m.root.fields.contains_key(id)
    &&& m.frozen.schema.layouts.contains_key(m.root.fields[id].layout_id)
    &&& is_array_of(m.frozen, root_layout(m, id), item)
    &&& is_stored(m.frozen, at, root_layout(m, id), 1)
    &&& is_stored(m.frozen, at, root_layout(m, id), 2)
    &&& stored_count(m, id) > 0
    &&& data_start(m, id) <= u64::MAX
}

proof fn lemma_root_list(m: MetadataView, id: i16, item: i16)
    requires
        is_root_list(m, id, item),
    ensures
        m.resolve(id) == Ok::<Option<(LayoutView, Pos)>, ErrorView>(
            Some((root_layout(m, id), root_pos(m, id))),
        ),
        kind_of(root_layout(m, id), m.frozen.schema) == Ok::<LayoutKind, ErrorView>(
            LayoutKind::Array { item_layout_id: item },
        ),
        m.frozen.range(root_pos(m, id), root_layout(m, id)) == Ok::<RangeView, ErrorView>(
            RangeView {
                data_byte: data_start(m, id) as u64,
                count: stored_count(m, id) as u64,
                item_layout_id: Some(item),
            },
        ),
{
    let list = root_layout(m, id);
    assert(list.fields != Map::<i16, Field>::empty());
    lemma_range_is_where_stored(m.frozen, root_pos(m, id), list);
    assert(origin().at(m.root.fields[id]) == root_pos(m, id));
}

/// Packing numbers below 2^w side by side, `w` bits each, and reading the
/// list gives the numbers back, for every width from 1 to 64.
pub proof fn lemma_packed_numbers_read_back(
    m: MetadataView,
    id: i16,
    item: i16,
    cap: u64,
    numbers: Seq<u64>,
)
    requires
        is_root_list(m, id, item),
        ({
            let w = m.frozen.schema.layouts[item].bits as int;
            let start = 8 * data_start(m, id);
            &&& m.frozen.schema.layouts[item].fields == Map::<i16, Field>::empty()
            &&& m.frozen.schema.layouts[item].size == 0
            &&& 1 <= w <= 64
            &&& numbers.len() == stored_count(m, id) <= cap
            &&& start + numbers.len() * w <= 8 * m.frozen.bytes.len()
            &&& start + numbers.len() * w <= u64::MAX
            &&& forall|i: int|
                #![trigger numbers[i]]
                0 <= i < numbers.len() ==> numbers[i] == stored_number(
                    m.frozen.bytes,
                    start + i * w,
                    w as nat,
                )
        }),
    ensures
        m.int_list(id, cap) == Ok::<Seq<u64>, ErrorView>(numbers),
{
    let f = m.frozen;
    let w = f.schema.layouts[item].bits as u32;
    let start = 8 * data_start(m, id);
    lemma_root_list(m, id, item);
    let range = f.range(root_pos(m, id), root_layout(m, id))->Ok_0;
    let get = int_at(f, range, w);
    assert forall|j: nat| j < numbers.len() implies #[trigger] get(j) == Ok::<u64, ErrorView>(
        numbers[j as int],
    ) by {
        assert(j * w + w <= numbers.len() * w) by (nonlinear_arith)
            requires
                j < numbers.len(),
        ;
        assert(j * w >= 0) by (nonlinear_arith);
        let pos = f.element(range, j as u64)->Ok_0;
        assert(pos.abs() == start + j * w);
        lemma_read_spells_bits(f.bytes, pos.abs(), w);
    }
    lemma_collect_all(numbers.len(), numbers, get);
}

/// Narrowing changes no number that fits.
pub proof fn lemma_narrowing_keeps_numbers(numbers: Seq<u64>, small: Seq<u32>, which: Narrow)
    requires
        numbers.len() == small.len(),
        forall|i: int| 0 <= i < numbers.len() ==> numbers[i] == #[trigger] small[i],
    ensures
        narrowed(Ok(numbers), which) == Ok::<Seq<u32>, ErrorView>(small),
{
    let get = narrow_at(numbers, which);
    assert forall|j: nat| j < small.len() implies #[trigger] get(j) == Ok::<u32, ErrorView>(
        small[j as int],
    ) by {
        assert(numbers[j as int] == small[j as int]);
    }
    lemma_collect_all(small.len(), small, get);
}

/// Packing 32-bit numbers side by side and reading the list gives the
/// numbers back. The chunk table, the symlink table, the modes and the
/// owners are such lists.
pub proof fn lemma_packed_table_reads_back(
    m: MetadataView,
    id: i16,
    item: i16,
    numbers: Seq<u32>,
)
    requires
        is_root_list(m, id, item),
        ({
            let w = m.frozen.schema.layouts[item].bits as int;
            let start = 8 * data_start(m, id);
            &&& m.frozen.schema.layouts[item].fields == Map::<i16, Field>::empty()
            &&& m.frozen.schema.layouts[item].size == 0
            &&& 1 <= w <= 64
            &&& numbers.len() == stored_count(m, id) <= 0x400_0000
            &&& start + numbers.len() * w <= 8 * m.frozen.bytes.len()
            &&& start + numbers.len() * w <= u64::MAX
            &&& forall|i: int|
                #![trigger numbers[i]]
                0 <= i < numbers.len() ==> numbers[i] == stored_number(
                    m.frozen.bytes,
                    start + i * w,
                    w as nat,
                )
        }),
    ensures
        m.u32_list(id) == Ok::<Seq<u32>, ErrorView>(numbers),
{
    let wide = Seq::new(numbers.len(), |i: int| numbers[i] as u64);
    let w = m.frozen.schema.layouts[item].bits as int;
    let start = 8 * data_start(m, id);
    assert forall|i: int| #![trigger wide[i]] 0 <= i < wide.len() implies wide[i]
        == stored_number(m.frozen.bytes, start + i * w, w as nat) by {
        assert(numbers[i] == wide[i]);
    }
    lemma_packed_numbers_read_back(m, id, item, 0x400_0000, wide);
    lemma_narrowing_keeps_numbers(wide, numbers, Narrow::Element(id));
}

/// Where element `i` of a list of structs starts: `i` times the bytes of
/// one behind the list's data, or `i` times its bits where it has no bytes
/// of its own.
pub open spec fn element_pos(data: int, item: LayoutView, i: int) -> Pos {
    if item.size > 0 {
        Pos { byte: (data + i * item.size) as u64, bit: 0 }
    } else {
        Pos { byte: data as u64, bit: (i * item.bits) as u64 }
    }
}

/// Whether all elements of a list start inside the address space.
pub open spec fn elements_fit(data: int, item: LayoutView, count: nat) -> bool {
    &&& count * item.bits <= u64::MAX
    &&& data + count * item.size <= u64::MAX
}

proof fn lemma_element(f: FrozenView, range: RangeView, id: i16, i: nat)
    requires
        range.item_layout_id == Some(id),
        f.schema.layouts.contains_key(id),
        elements_fit(range.data_byte as int, f.schema.layouts[id], range.count as nat),
        i < range.count,
    ensures
        f.element(range, i as u64) == Ok::<Pos, ErrorView>(
            element_pos(range.data_byte as int, f.schema.layouts[id], i as int),
        ),
{
    let item = f.schema.layouts[id];
    let n = range.count as int;
    assert(i * item.size <= n * item.size) by (nonlinear_arith)
        requires
            i < n,
    ;
    assert(i * item.bits <= n * item.bits) by (nonlinear_arith)
        requires
            i < n,
    ;
    assert(i * item.size >= 0 && i * item.bits >= 0) by (nonlinear_arith);
}

/// A list of structs is the structs that stand one after the other in the
/// list's data.
pub proof fn lemma_structs_stand_in_a_row<T: FrozenStruct>(
    m: MetadataView,
    id: i16,
    item: i16,
    values: Seq<T>,
)
    requires
        is_root_list(m, id, item),
        values.len() == stored_count(m, id) <= 0x400_0000,
        elements_fit(data_start(m, id), m.frozen.schema.layouts[item], values.len()),
        forall|i: int|
            #![trigger values[i]]
            0 <= i < values.len() ==> T::at(
                m.frozen,
                element_pos(data_start(m, id), m.frozen.schema.layouts[item], i),
                m.frozen.schema.layouts[item],
            ) == Ok::<T, ErrorView>(values[i]),
    ensures
        m.struct_list::<T>(id) == Ok::<Seq<T>, ErrorView>(values),
{
    let f = m.frozen;
    lemma_root_list(m, id, item);
    let range = f.range(root_pos(m, id), root_layout(m, id))->Ok_0;
    let get = struct_at::<T>(f, range, f.schema.layouts[item]);
    assert forall|j: nat| j < values.len() implies #[trigger] get(j) == Ok::<T, ErrorView>(
        values[j as int],
    ) by {
        lemma_element(f, range, item, j);
        assert(values[j as int] == values[j as int]);
    }
    lemma_collect_all(values.len(), values, get);
}

/// A list of strings is the strings that stand one after the other in the
/// list's data.
pub proof fn lemma_strings_stand_in_a_row(
    m: MetadataView,
    id: i16,
    item: i16,
    strings: Seq<Seq<u8>>,
)
    requires
        is_root_list(m, id, item),
        m.frozen.bytes.len() <= usize::MAX,
        strings.len() == stored_count(m, id) <= 0x400_0000,
        elements_fit(data_start(m, id), m.frozen.schema.layouts[item], strings.len()),
        forall|i: int|
            #![trigger strings[i]]
            0 <= i < strings.len() ==> {
                let layout = m.frozen.schema.layouts[item];
                let pos = element_pos(data_start(m, id), layout, i);
                let start = pos.byte + stored(m.frozen, first_bit(pos), layout, 1);
                &&& is_stored(m.frozen, first_bit(pos), layout, 1)
                &&& is_stored(m.frozen, first_bit(pos), layout, 2)
                &&& strings[i].len() == stored(m.frozen, first_bit(pos), layout, 2)
                &&& start + strings[i].len() <= m.frozen.bytes.len()
                &&& strings[i] == m.frozen.bytes.subrange(
                    start as int,
                    (start + strings[i].len()) as int,
                )
            },
    ensures
        m.string_list(id) == Ok::<Seq<Seq<u8>>, ErrorView>(strings),
{
    let f = m.frozen;
    let layout = f.schema.layouts[item];
    lemma_root_list(m, id, item);
    let range = f.range(root_pos(m, id), root_layout(m, id))->Ok_0;
    let get = string_at(f, range, layout);
    assert forall|j: nat| j < strings.len() implies #[trigger] get(j) == Ok::<Seq<u8>, ErrorView>(
        strings[j as int],
    ) by {
        lemma_element(f, range, item, j);
        assert(strings[j as int] == strings[j as int]);
        lemma_string_is_where_stored(f, element_pos(data_start(m, id), layout, j as int), layout);
    }
    lemma_collect_all(strings.len(), strings, get);
}

/// Whether the field `id` of a struct is stored and fits 32 bits.
pub open spec fn is_stored_u32(f: FrozenView, at: int, layout: LayoutView, id: i16) -> bool {
    is_stored(f, at, layout, id) && stored(f, at, layout, id) <= u32::MAX
}

proof fn lemma_u32_field(f: FrozenView, pos: Pos, layout: LayoutView, id: i16)
    requires
        is_stored_u32(f, first_bit(pos), layout, id),
    ensures
        u32_field(f, pos, layout, id) matches Ok(v) && v == stored(f, first_bit(pos), layout, id),
{
    lemma_field_reads_as_stored(f, pos, layout, id);
}

/// A chunk's block, offset and size are the numbers stored in its fields 1
/// to 3.
pub proof fn lemma_chunk_is_stored(f: FrozenView, pos: Pos, layout: LayoutView)
    requires
        forall|id: i16| 1 <= id <= 3 ==> #[trigger] is_stored_u32(f, first_bit(pos), layout, id),
    ensures
        Chunk::at(f, pos, layout) matches Ok(c) && {
            &&& c.block == stored(f, first_bit(pos), layout, 1)
            &&& c.offset == stored(f, first_bit(pos), layout, 2)
            &&& c.size == stored(f, first_bit(pos), layout, 3)
        },
{
    lemma_u32_field(f, pos, layout, 1);
    lemma_u32_field(f, pos, layout, 2);
    lemma_u32_field(f, pos, layout, 3);
}

/// A directory entry's name and inode are the numbers stored in its fields
/// 1 and 2.
pub proof fn lemma_dir_entry_is_stored(f: FrozenView, pos: Pos, layout: LayoutView)
    requires
        forall|id: i16| 1 <= id <= 2 ==> #[trigger] is_stored_u32(f, first_bit(pos), layout, id),
    ensures
        DirEntry::at(f, pos, layout) matches Ok(e) && {
            &&& e.name_index == stored(f, first_bit(pos), layout, 1)
            &&& e.inode_num == stored(f, first_bit(pos), layout, 2)
        },
{
    lemma_u32_field(f, pos, layout, 1);
    lemma_u32_field(f, pos, layout, 2);
}

/// A directory's entries are the numbers stored in its fields 1 to 3: that
/// of its parent, its first, and its own.
pub proof fn lemma_directory_is_stored(f: FrozenView, pos: Pos, layout: LayoutView)
    requires
        forall|id: i16| 1 <= id <= 3 ==> #[trigger] is_stored_u32(f, first_bit(pos), layout, id),
    ensures
        Directory::at(f, pos, layout) matches Ok(d) && {
            &&& d.parent_entry == stored(f, first_bit(pos), layout, 1)
            &&& d.first_entry == stored(f, first_bit(pos), layout, 2)
            &&& d.self_entry == stored(f, first_bit(pos), layout, 3)
        },
{
    lemma_u32_field(f, pos, layout, 1);
    lemma_u32_field(f, pos, layout, 2);
    lemma_u32_field(f, pos, layout, 3);
}

/// An inode's mode, owner, group, times and links are the numbers stored
/// in its fields 2 and 4 to 14.
pub proof fn lemma_inode_is_stored(f: FrozenView, pos: Pos, layout: LayoutView)
    requires
        is_stored_u32(f, first_bit(pos), layout, 2),
        is_stored_u32(f, first_bit(pos), layout, 4),
        is_stored_u32(f, first_bit(pos), layout, 5),
        is_stored_u32(f, first_bit(pos), layout, 14),
        forall|id: i16| 6 <= id <= 13 ==> #[trigger] is_stored(f, first_bit(pos), layout, id),
    ensures
        InodeData::at(f, pos, layout) matches Ok(i) && {
            &&& i.mode_index == stored(f, first_bit(pos), layout, 2)
            &&& i.owner_index == stored(f, first_bit(pos), layout, 4)
            &&& i.group_index == stored(f, first_bit(pos), layout, 5)
            &&& i.atime_offset == stored(f, first_bit(pos), layout, 6)
            &&& i.mtime_offset == stored(f, first_bit(pos), layout, 7)
            &&& i.ctime_offset == stored(f, first_bit(pos), layout, 8)
            &&& i.btime_offset == stored(f, first_bit(pos), layout, 9)
            &&& i.atime_subsec == stored(f, first_bit(pos), layout, 10)
            &&& i.mtime_subsec == stored(f, first_bit(pos), layout, 11)
            &&& i.ctime_subsec == stored(f, first_bit(pos), layout, 12)
            &&& i.btime_subsec == stored(f, first_bit(pos), layout, 13)
            &&& i.nlink_minus_one == stored(f, first_bit(pos), layout, 14)
        },
{
    lemma_u32_field(f, pos, layout, 2);
    lemma_u32_field(f, pos, layout, 4);
    lemma_u32_field(f, pos, layout, 5);
    lemma_u32_field(f, pos, layout, 14);
    lemma_field_reads_as_stored(f, pos, layout, 6);
    lemma_field_reads_as_stored(f, pos, layout, 7);
    lemma_field_reads_as_stored(f, pos, layout, 8);
    lemma_field_reads_as_stored(f, pos, layout, 9);
    lemma_field_reads_as_stored(f, pos, layout, 10);
    lemma_field_reads_as_stored(f, pos, layout, 11);
    lemma_field_reads_as_stored(f, pos, layout, 12);
    lemma_field_reads_as_stored(f, pos, layout, 13);
}

/// Whether a layout is that of an optional whose flag lies inside the blob
/// when the optional stands at `pos`.
pub open spec fn is_optional_at(f: FrozenView, pos: Pos, layout: LayoutView) -> bool {
    &&& layout.fields.contains_key(1)
    &&& f.schema.layouts.contains_key(layout.fields[1].layout_id)
    &&& f.schema.layouts[layout.fields[1].layout_id].fields == Map::<i16, Field>::empty()
    &&& f.schema.layouts[layout.fields[1].layout_id].bits == 1
    &&& is_stored(f, first_bit(pos), layout, 1)
    &&& is_stored(f, first_bit(pos), layout, 2)
}

/// An optional is set exactly when its flag bit is one, and its value
/// stands where its second field does.
pub proof fn lemma_optional_goes_by_its_flag(f: FrozenView, pos: Pos, layout: LayoutView)
    requires
        is_optional_at(f, pos, layout),
    ensures
        kind_of(layout, f.schema) matches Ok(LayoutKind::Optional { value_layout_id })
            && value_layout_id == (if layout.fields.contains_key(2) {
            Some(layout.fields[2].layout_id)
        } else {
            None
        }),
        f.optional(pos, layout) matches Ok(o) && {
            &&& o.present == (bit_of(f.bytes, first_bit(pos) + bits_in(layout.fields[1])) == 1)
            &&& layout.fields.contains_key(2) ==> first_bit(o.value_pos) == first_bit(pos)
                + bits_in(layout.fields[2]) && o.value_layout_id == Some(
                layout.fields[2].layout_id,
            )
            &&& !layout.fields.contains_key(2) ==> o.value_layout_id is None
        },
{
    let flag = layout.fields[1];
    let at = pos.at(flag);
    assert(layout.fields != Map::<i16, Field>::empty());
    assert(first_bit(at) == first_bit(pos) + bits_in(flag));
    lemma_read_spells_bits(f.bytes, at.abs(), 1);
    assert(stored_number(f.bytes, at.abs() as int, 1) == bit_of(f.bytes, at.abs() as int)) by {
        reveal_with_fuel(stored_number, 2);
    }
    if layout.fields.contains_key(2) {
        assert(first_bit(pos.at(layout.fields[2])) == first_bit(pos) + bits_in(layout.fields[2]));
    }
}

/// A root optional number is there exactly when its flag is set, and is
/// the number stored in its value.
pub proof fn lemma_optional_number_is_stored(m: MetadataView, id: i16)
    requires
        m.root.fields.contains_key(id),
        m.frozen.schema.layouts.contains_key(m.root.fields[id].layout_id),
        is_optional_at(m.frozen, root_pos(m, id), root_layout(m, id)),
    ensures
        ({
            let at = first_bit(root_pos(m, id));
            let layout = root_layout(m, id);
            m.optional_int(id) matches Ok(v) && if bit_of(
                m.frozen.bytes,
                at + bits_in(layout.fields[1]),
            ) == 1 {
                v matches Some(n) && n == stored(m.frozen, at, layout, 2)
            } else {
                v is None
            }
        }),
{
    let f = m.frozen;
    let pos = root_pos(m, id);
    let layout = root_layout(m, id);
    assert(origin().at(m.root.fields[id]) == pos);
    lemma_optional_goes_by_its_flag(f, pos, layout);
    if layout.fields.contains_key(2) {
        let o = f.optional(pos, layout)->Ok_0;
        lemma_read_spells_bits(
            f.bytes,
            o.value_pos.abs(),
            width(f, layout.fields[2]) as u32,
        );
    }
}

/// A root number is the one stored in its field.
pub proof fn lemma_root_number_is_stored(m: MetadataView, id: i16)
    requires
        m.root.fields.contains_key(id),
        is_stored(m.frozen, 0, m.root, id),
    ensures
        m.root_int(id) matches Ok(v) && v == stored(m.frozen, 0, m.root, id),
{
    lemma_field_reads_as_stored(m.frozen, origin(), m.root, id);
}

/// The flags among the options are set where a number other than zero is
/// stored in their fields.
pub proof fn lemma_option_flags_are_stored(m: MetadataView, pos: Pos, layout: LayoutView)
    requires
        m.options_at(pos, layout) is Ok,
        is_stored(m.frozen, first_bit(pos), layout, 1),
        is_stored(m.frozen, first_bit(pos), layout, 3),
        is_stored(m.frozen, first_bit(pos), layout, 4),
        is_stored(m.frozen, first_bit(pos), layout, 5),
        is_stored(m.frozen, first_bit(pos), layout, 7),
        is_stored(m.frozen, first_bit(pos), layout, 8),
    ensures
        ({
            let o = m.options_at(pos, layout)->Ok_0;
            let at = first_bit(pos);
            &&& o.mtime_only == (stored(m.frozen, at, layout, 1) != 0)
            &&& o.packed_chunk_table == (stored(m.frozen, at, layout, 3) != 0)
            &&& o.packed_directories == (stored(m.frozen, at, layout, 4) != 0)
            &&& o.packed_shared_files_table == (stored(m.frozen, at, layout, 5) != 0)
            &&& o.has_btime == (stored(m.frozen, at, layout, 7) != 0)
            &&& o.inodes_have_nlink == (stored(m.frozen, at, layout, 8) != 0)
            &&& !layout.fields.contains_key(2) ==> o.time_resolution_sec is None
            &&& !layout.fields.contains_key(6) ==> o.subsecond_resolution_nsec_multiplier is None
        }),
{
    lemma_field_reads_as_stored(m.frozen, pos, layout, 1);
    lemma_field_reads_as_stored(m.frozen, pos, layout, 3);
    lemma_field_reads_as_stored(m.frozen, pos, layout, 4);
    lemma_field_reads_as_stored(m.frozen, pos, layout, 5);
    lemma_field_reads_as_stored(m.frozen, pos, layout, 7);
    lemma_field_reads_as_stored(m.frozen, pos, layout, 8);
}

/// An optional number of a struct is there exactly when its flag is set,
/// and is the number stored in its value. The time resolution is such a
/// number.
pub proof fn lemma_optional_field_is_stored(
    m: MetadataView,
    pos: Pos,
    layout: LayoutView,
    id: i16,
)
    requires
        layout.fields.contains_key(id),
        m.frozen.schema.layouts.contains_key(layout.fields[id].layout_id),
        first_bit(pos) + bits_in(layout.fields[id]) <= u64::MAX,
        is_optional_at(
            m.frozen,
            pos.at(layout.fields[id]),
            m.frozen.schema.layouts[layout.fields[id].layout_id],
        ),
        stored(
            m.frozen,
            first_bit(pos) + bits_in(layout.fields[id]),
            m.frozen.schema.layouts[layout.fields[id].layout_id],
            2,
        ) <= u32::MAX,
    ensures
        ({
            let at = first_bit(pos) + bits_in(layout.fields[id]);
            let outer = m.frozen.schema.layouts[layout.fields[id].layout_id];
            optional_u32_field(m.frozen, pos, layout, id) matches Ok(v) && if bit_of(
                m.frozen.bytes,
                at + bits_in(outer.fields[1]),
            ) == 1 {
                v matches Some(n) && n == stored(m.frozen, at, outer, 2)
            } else {
                v is None
            }
        }),
{
    let f = m.frozen;
    let inner = pos.at(layout.fields[id]);
    let outer = f.schema.layouts[layout.fields[id].layout_id];
    assert(first_bit(inner) == first_bit(pos) + bits_in(layout.fields[id]));
    lemma_optional_goes_by_its_flag(f, inner, outer);
    if outer.fields.contains_key(2) {
        let o = f.optional(inner, outer)->Ok_0;
        lemma_read_spells_bits(f.bytes, o.value_pos.abs(), width(f, outer.fields[2]) as u32);
    }
}

/// The `k + 2` places that entry `i` of value `k` of a packed shared-files
/// table stands for come right after those of the entries before it, and
/// all of them hold `i`.
pub proof fn lemma_runs_hold_their_index(raw: Seq<u32>, i: int, k: int)
    requires
        0 <= i < raw.len() <= u32::MAX,
        0 <= k < raw[i] + 2,
    ensures
        unpack_runs(raw).len() == sum_of(raw) + 2 * raw.len(),
        unpack_runs(raw)[sum_of(raw.take(i)) + 2 * i + k] == i,
        sum_of(raw.take(i)) + 2 * i + k < unpack_runs(raw).len(),
    decreases raw.len(),
{
    let front = raw.drop_last();
    lemma_runs_len(front);
    lemma_runs_len(raw);
    if i == raw.len() - 1 {
        assert(raw.take(i) =~= front);
    } else {
        lemma_runs_hold_their_index(front, i, k);
        assert(front.take(i) =~= raw.take(i));
    }
}

proof fn lemma_runs_len(raw: Seq<u32>)
    ensures
        unpack_runs(raw).len() == sum_of(raw) + 2 * raw.len(),
    decreases raw.len(),
{
    if raw.len() > 0 {
        lemma_runs_len(raw.drop_last());
    }
}

/// A root list behind an optional is there exactly when the flag is set,
/// with the layout and the place of the optional's value. A list that was
/// elided is not there.
pub proof fn lemma_optional_list_goes_by_its_flag(m: MetadataView, id: i16)
    requires
        m.root.fields.contains_key(id),
        m.frozen.schema.layouts.contains_key(m.root.fields[id].layout_id),
        is_optional_at(m.frozen, root_pos(m, id), root_layout(m, id)),
        root_layout(m, id).fields.contains_key(2),
        m.frozen.schema.layouts.contains_key(root_layout(m, id).fields[2].layout_id),
    ensures
        ({
            let at = first_bit(root_pos(m, id));
            let outer = root_layout(m, id);
            if bit_of(m.frozen.bytes, at + bits_in(outer.fields[1])) == 1 {
                m.resolve(id) matches Ok(Some((layout, pos))) && layout
                    == m.frozen.schema.layouts[outer.fields[2].layout_id] && first_bit(pos) == at
                    + bits_in(outer.fields[2])
            } else {
                m.resolve(id) == Ok::<Option<(LayoutView, Pos)>, ErrorView>(None) && m.int_list(
                    id,
                    0x400_0000,
                ) == Ok::<Seq<u64>, ErrorView>(Seq::empty())
            }
        }),
{
    assert(origin().at(m.root.fields[id]) == root_pos(m, id));
    lemma_optional_goes_by_its_flag(m.frozen, root_pos(m, id), root_layout(m, id));
}

/// What was elided reads as nothing: numbers in lists, structs and strings
/// alike.
pub proof fn lemma_elided_lists_are_empty<T: FrozenStruct>(m: MetadataView, id: i16, cap: u64)
    requires
        !m.root.fields.contains_key(id),
    ensures
        m.int_list(id, cap) == Ok::<Seq<u64>, ErrorView>(Seq::empty()),
        m.struct_list::<T>(id) == Ok::<Seq<T>, ErrorView>(Seq::empty()),
        m.string_list(id) == Ok::<Seq<Seq<u8>>, ErrorView>(Seq::empty()),
        m.optional_int(id) == Ok::<Option<u64>, ErrorView>(None),
        m.root_int(id) is Err,
        m.string_table(id) == Ok::<Option<Seq<Seq<u8>>>, ErrorView>(None),
        m.table_size(id) is None,
{
}

/// A table takes as many entries as its list has, of as many bits as its
/// items; items without bits of their own count as one.
pub proof fn lemma_table_size_is_stored(m: MetadataView, id: i16, item: i16)
    requires
        is_root_list(m, id, item),
    ensures
        m.table_size(id) is Some,
        m.table_size(id)->Some_0.0 == stored_count(m, id),
        m.table_size(id)->Some_0.1 == (if m.frozen.schema.layouts[item].bits == 0 {
            1
        } else {
            m.frozen.schema.layouts[item].bits as int
        }),
{
    lemma_root_list(m, id, item);
    lemma_range_is_where_stored(m.frozen, root_pos(m, id), root_layout(m, id));
}

/// The list of numbers in field `id` of a struct: as many numbers as the
/// list counts, side by side from where its distance leads.
pub proof fn lemma_inner_numbers_read_back(
    f: FrozenView,
    pos: Pos,
    layout: LayoutView,
    id: i16,
    item: i16,
    cap: u64,
    numbers: Seq<u64>,
)
    requires
        layout.fields.contains_key(id),
        f.schema.layouts.contains_key(layout.fields[id].layout_id),
        ({
            let list = f.schema.layouts[layout.fields[id].layout_id];
            let inner = pos.at(layout.fields[id]);
            let at = first_bit(pos) + bits_in(layout.fields[id]);
            let w = f.schema.layouts[item].bits as int;
            let start = 8 * (inner.byte + stored(f, at, list, 1));
            &&& is_array_of(f, list, item)
            &&& is_stored(f, at, list, 1)
            &&& is_stored(f, at, list, 2)
            &&& numbers.len() == stored(f, at, list, 2) <= cap
            &&& numbers.len() > 0
            &&& inner.byte + stored(f, at, list, 1) <= u64::MAX
            &&& f.schema.layouts[item].fields == Map::<i16, Field>::empty()
            &&& f.schema.layouts[item].size == 0
            &&& 1 <= w <= 64
            &&& start + numbers.len() * w <= 8 * f.bytes.len()
            &&& start + numbers.len() * w <= u64::MAX
            &&& forall|i: int|
                #![trigger numbers[i]]
                0 <= i < numbers.len() ==> numbers[i] == stored_number(
                    f.bytes,
                    start + i * w,
                    w as nat,
                )
        }),
    ensures
        int_list_field(f, pos, layout, id, cap) == Ok::<Seq<u64>, ErrorView>(numbers),
{
    let list = f.schema.layouts[layout.fields[id].layout_id];
    let inner = pos.at(layout.fields[id]);
    let at = first_bit(pos) + bits_in(layout.fields[id]);
    assert(first_bit(inner) == at);
    assert(list.fields != Map::<i16, Field>::empty());
    lemma_range_is_where_stored(f, inner, list);
    let w = f.schema.layouts[item].bits as u32;
    let range = f.range(inner, list)->Ok_0;
    let start = 8 * range.data_byte as int;
    let get = int_at(f, range, w);
    assert forall|j: nat| j < numbers.len() implies #[trigger] get(j) == Ok::<u64, ErrorView>(
        numbers[j as int],
    ) by {
        assert(j * w + w <= numbers.len() * w) by (nonlinear_arith)
            requires
                j < numbers.len(),
        ;
        assert(j * w >= 0) by (nonlinear_arith);
        let p = f.element(range, j as u64)->Ok_0;
        assert(p.abs() == start + j * w);
        lemma_read_spells_bits(f.bytes, p.abs(), w);
    }
    lemma_collect_all(numbers.len(), numbers, get);
}

/// A string table is made of its four fields: the bytes of its strings in
/// the first, its symbols in the second, its index in the third, and in
/// the fourth whether the index is packed.
pub proof fn lemma_string_table_takes_its_fields(
    m: MetadataView,
    pos: Pos,
    layout: LayoutView,
    buffer: Seq<u8>,
    symbols: Option<Seq<u8>>,
    index: Seq<u32>,
)
    requires
        string_field(m.frozen, pos, layout, 1) == Ok::<Seq<u8>, ErrorView>(buffer),
        optional_string_field(m.frozen, pos, layout, 2) == Ok::<Option<Seq<u8>>, ErrorView>(
            symbols,
        ),
        int_list_field(m.frozen, pos, layout, 3, 0x400_0000) == Ok::<Seq<u64>, ErrorView>(
            Seq::new(index.len(), |i: int| index[i] as u64),
        ),
        is_stored(m.frozen, first_bit(pos), layout, 4),
    ensures
        m.table_at(pos, layout) == table_strings(
            buffer,
            symbols,
            index,
            stored(m.frozen, first_bit(pos), layout, 4) != 0,
        ),
{
    let raw = Seq::new(index.len(), |i: int| index[i] as u64);
    lemma_field_reads_as_stored(m.frozen, pos, layout, 4);
    lemma_narrowing_keeps_numbers(raw, index, Narrow::TableIndex);
}

/// The categories of the blocks are the numbers of their list.
pub proof fn lemma_block_categories_read_back(m: MetadataView, categories: Seq<u32>)
    requires
        m.int_list(29, 0x400_0000) == Ok::<Seq<u64>, ErrorView>(
            Seq::new(categories.len(), |i: int| categories[i] as u64),
        ),
    ensures
        m.block_categories() == Ok::<Seq<u32>, ErrorView>(categories),
{
    let wide = Seq::new(categories.len(), |i: int| categories[i] as u64);
    lemma_narrowing_keeps_numbers(wide, categories, Narrow::Category);
}

/// The options are those of the root's option struct; without one no option
/// is set.
pub proof fn lemma_options_are_those_of_the_root(m: MetadataView)
    ensures
        match m.resolve(18) {
            Ok(Some((layout, pos))) => m.fs_options() == m.options_at(pos, layout),
            Ok(None) => m.fs_options() matches Ok(o) && !o.mtime_only && !o.packed_chunk_table
                && !o.packed_directories && !o.packed_shared_files_table && !o.has_btime
                && !o.inodes_have_nlink && o.time_resolution_sec is None
                && o.subsecond_resolution_nsec_multiplier is None,
            Err(_) => m.fs_options() is Err,
        },
{
}

/// A list of texts is the list of byte strings, read as UTF-8 one by one.
/// One that is none is refused.
pub proof fn lemma_texts_are_the_strings(
    m: MetadataView,
    id: i16,
    name: Seq<char>,
    strings: Seq<Seq<u8>>,
    texts: Seq<Seq<char>>,
)
    requires
        m.string_list(id) == Ok::<Seq<Seq<u8>>, ErrorView>(strings),
        strings.len() == texts.len(),
    ensures
        (forall|i: int| 0 <= i < strings.len() ==> text_of(#[trigger] strings[i]) == Some(texts[i]))
            ==> m.text_list(id, name) == Ok::<Seq<Seq<char>>, ErrorView>(texts),
        (exists|i: int| 0 <= i < strings.len() && text_of(#[trigger] strings[i]) is None)
            ==> m.text_list(id, name) is Err,
{
    if let Ok(Some((list, pos))) = m.resolve(id) {
        let f = m.frozen;
        let range = f.range(pos, list)->Ok_0;
        let item_id = kind_of(list, f.schema)->Ok_0->item_layout_id;
        let item = f.schema.layouts[item_id];
        let raw = string_at(f, range, item);
        let get = text_at(f, range, item, name);
        crate::collect::lemma_collect_ok(range.count as nat, raw);
        if forall|i: int|
            0 <= i < strings.len() ==> text_of(#[trigger] strings[i]) == Some(texts[i]) {
            assert forall|j: nat| j < texts.len() implies #[trigger] get(j) == Ok::<
                Seq<char>,
                ErrorView,
            >(texts[j as int]) by {
                assert(raw(j) == Ok::<Seq<u8>, ErrorView>(strings[j as int]));
            }
            lemma_collect_all(texts.len(), texts, get);
        }
        if exists|i: int| 0 <= i < strings.len() && text_of(#[trigger] strings[i]) is None {
            let i = choose|i: int| 0 <= i < strings.len() && text_of(#[trigger] strings[i]) is None;
            if m.text_list(id, name) is Ok {
                crate::collect::lemma_collect_ok(range.count as nat, get);
                let all = collect(range.count as nat, get)->Ok_0;
                assert(get(i as nat) == Ok::<Seq<char>, ErrorView>(all[i]));
                assert(raw(i as nat) == Ok::<Seq<u8>, ErrorView>(strings[i]));
            }
        }
    } else {
        assert(texts =~= Seq::<Seq<char>>::empty());
    }
}

/// Names come from the string table where the metadata has one, and from
/// the plain list where it has none.
pub proof fn lemma_names_come_from_the_table(m: MetadataView, compact: i16, plain: i16)
    ensures
        m.string_table(compact) matches Ok(Some(table)) ==> m.strings(compact, plain) == Ok::<
            Seq<Seq<u8>>,
            ErrorView,
        >(table),
        m.string_table(compact) == Ok::<Option<Seq<Seq<u8>>>, ErrorView>(None) ==> m.strings(
            compact,
            plain,
        ) == m.string_list(plain),
        !m.root.fields.contains_key(compact) ==> m.strings(compact, plain) == m.string_list(plain),
{
}

/// Items that take no bits are all zero, and a list longer than allowed is
/// refused.
pub proof fn lemma_items_without_storage_are_zero(m: MetadataView, id: i16, item: i16, cap: u64)
    requires
        is_root_list(m, id, item),
        m.frozen.schema.layouts[item].fields == Map::<i16, Field>::empty(),
    ensures
        stored_count(m, id) > cap ==> m.int_list(id, cap) is Err,
        stored_count(m, id) <= cap && m.frozen.schema.layouts[item].bits == 0 ==> (m.int_list(
            id,
            cap,
        ) matches Ok(numbers) && numbers.len() == stored_count(m, id) && forall|i: int|
            0 <= i < numbers.len() ==> #[trigger] numbers[i] == 0),
{
    lemma_root_list(m, id, item);
    lemma_range_is_where_stored(m.frozen, root_pos(m, id), root_layout(m, id));
}

/// Numbers whose items have bytes of their own stand that many bytes apart.
pub proof fn lemma_spaced_numbers_read_back(
    m: MetadataView,
    id: i16,
    item: i16,
    cap: u64,
    numbers: Seq<u64>,
)
    requires
        is_root_list(m, id, item),
        ({
            let w = m.frozen.schema.layouts[item].bits as int;
            let size = m.frozen.schema.layouts[item].size as int;
            let start = data_start(m, id);
            &&& m.frozen.schema.layouts[item].fields == Map::<i16, Field>::empty()
            &&& size > 0
            &&& 1 <= w <= 64 && w <= 8 * size
            &&& numbers.len() == stored_count(m, id) <= cap
            &&& start + numbers.len() * size <= m.frozen.bytes.len()
            &&& 8 * (start + numbers.len() * size) <= u64::MAX
            &&& forall|i: int|
                #![trigger numbers[i]]
                0 <= i < numbers.len() ==> numbers[i] == stored_number(
                    m.frozen.bytes,
                    8 * (start + i * size),
                    w as nat,
                )
        }),
    ensures
        m.int_list(id, cap) == Ok::<Seq<u64>, ErrorView>(numbers),
{
    let f = m.frozen;
    let w = f.schema.layouts[item].bits as u32;
    let size = f.schema.layouts[item].size as int;
    let start = data_start(m, id);
    lemma_root_list(m, id, item);
    lemma_range_is_where_stored(m.frozen, root_pos(m, id), root_layout(m, id));
    let range = f.range(root_pos(m, id), root_layout(m, id))->Ok_0;
    let get = int_at(f, range, w);
    assert forall|j: nat| j < numbers.len() implies #[trigger] get(j) == Ok::<u64, ErrorView>(
        numbers[j as int],
    ) by {
        assert(j * size + size <= numbers.len() * size) by (nonlinear_arith)
            requires
                j < numbers.len(),
                size > 0,
        ;
        assert(j * size >= 0) by (nonlinear_arith)
            requires
                size > 0,
        ;
        let pos = f.element(range, j as u64)->Ok_0;
        assert(pos.abs() == 8 * (start + j * size));
        lemma_read_spells_bits(f.bytes, pos.abs(), w);
    }
    lemma_collect_all(numbers.len(), numbers, get);
}

/// What a layout is follows from its fields: none make a number, or nothing
/// at all where it has no room; a first field of one bit makes an optional;
/// and otherwise the first three fields alone make a string, or an array
/// where the third is there. Anything else is a struct.
pub proof fn lemma_layout_kinds(f: FrozenView, layout: LayoutView)
    requires
        layout.fields.contains_key(1) ==> f.schema.layouts.contains_key(
            layout.fields[1].layout_id,
        ),
    ensures
        ({
            let kind = kind_of(layout, f.schema);
            let flagged = layout.fields.contains_key(1) && {
                let first = f.schema.layouts[layout.fields[1].layout_id];
                first.bits == 1 && forall|id: i16| !#[trigger] first.fields.contains_key(id)
            };
            let plain = forall|id: i16| #[trigger] layout.fields.contains_key(id) ==> 1 <= id <= 3;
            &&& kind is Ok
            &&& (forall|id: i16| !#[trigger] layout.fields.contains_key(id)) ==> kind->Ok_0 == (
            if layout.bits == 0 && layout.size == 0 {
                LayoutKind::Empty
            } else {
                LayoutKind::Integral(layout.bits as u32)
            })
            &&& flagged ==> kind->Ok_0 == (LayoutKind::Optional {
                value_layout_id: if layout.fields.contains_key(2) {
                    Some(layout.fields[2].layout_id)
                } else {
                    None
                },
            })
            &&& !flagged && plain && layout.fields.contains_key(3) ==> kind->Ok_0 == (
            LayoutKind::Array { item_layout_id: layout.fields[3].layout_id })
            &&& !flagged && plain && !layout.fields.contains_key(3) && (
            layout.fields.contains_key(1) || layout.fields.contains_key(2)) ==> kind->Ok_0
                == LayoutKind::String
            &&& !flagged && !plain ==> kind->Ok_0 == LayoutKind::Struct
        }),
{
    let none = Map::<i16, Field>::empty();
    if forall|id: i16| !#[trigger] layout.fields.contains_key(id) {
        assert(layout.fields =~= none);
    }
    if layout.fields == none {
        assert(!layout.fields.contains_key(1));
        assert(!layout.fields.contains_key(2));
        assert(!layout.fields.contains_key(3));
        assert(forall|id: i16| !#[trigger] layout.fields.contains_key(id));
    }
    if layout.fields.contains_key(1) {
        let first = f.schema.layouts[layout.fields[1].layout_id];
        if forall|id: i16| !#[trigger] first.fields.contains_key(id) {
            assert(first.fields =~= none);
        }
        if first.fields == none {
            assert(forall|id: i16| !#[trigger] first.fields.contains_key(id));
        }
    }
}

/// The offset of a field in bits is where its number stands in its struct,
/// and a layout without fields is a number where it has bits.
pub proof fn lemma_field_offsets(field: Field, pos: Pos, layout: LayoutView)
    ensures
        field.bits_from_parent() == bits_in(field),
        pos.byte + field.offset <= u64::MAX && pos.bit - field.offset <= u64::MAX ==> first_bit(
            pos.at(field),
        ) == first_bit(pos) + bits_in(field),
        layout.is_integral() <==> layout.bits > 0 && forall|id: i16|
            !#[trigger] layout.fields.contains_key(id),
{
    if forall|id: i16| !#[trigger] layout.fields.contains_key(id) {
        assert(layout.fields =~= Map::<i16, Field>::empty());
    }
}

} // verus!
