//! Typed lazy accessors over a Frozen2-decoded DwarFS metadata blob.
//!
//! Wraps a [`Frozen`] decoder with knowledge of the metadata field ids
//! so callers can ask for `block_size` or `uids` directly instead of
//! routing through layout traversal. Accessors are lazy: each call
//! resolves the field's position and decodes only what was asked for;
//! nothing is materialized at construction.
//!
//! All list lengths are bounded by a cap to defend the read path
//! against hostile inputs.

use crate::collect::collect;
use crate::error::{Error, ErrorView, outcome};
use crate::metadata::bitbuf::read_bits;
use crate::metadata::frozen::{Frozen, FrozenView, LayoutKind, Pos, RangeView, kind_of};
use crate::metadata::schema::{Layout, LayoutView};
use crate::metadata::string_table::model_error;
use crate::text::{Text, dec, dec_signed};
use vstd::prelude::*;

verus! {

/// Maximum element count accepted for any list. 64 million entries is
/// comfortably larger than any reasonable real-world image while still
/// bounding allocation on hostile inputs.
pub const DEFAULT_LIST_CAP: u64 = 64 * 1024 * 1024;

pub const ID_CHUNKS: i16 = 1;

pub const ID_DIRECTORIES: i16 = 2;

pub const ID_INODES: i16 = 3;

pub const ID_CHUNK_TABLE: i16 = 4;

pub const ID_SYMLINK_TABLE: i16 = 6;

pub const ID_UIDS: i16 = 7;

pub const ID_GIDS: i16 = 8;

pub const ID_MODES: i16 = 9;

pub const ID_NAMES: i16 = 10;

pub const ID_SYMLINKS: i16 = 11;

pub const ID_TIMESTAMP_BASE: i16 = 12;

pub const ID_BLOCK_SIZE: i16 = 15;

pub const ID_TOTAL_FS_SIZE: i16 = 16;

pub const ID_DEVICES: i16 = 17;

pub const ID_OPTIONS: i16 = 18;

pub const ID_DIR_ENTRIES: i16 = 19;

pub const ID_SHARED_FILES_TABLE: i16 = 20;

pub const ID_COMPACT_NAMES: i16 = 24;

pub const ID_COMPACT_SYMLINKS: i16 = 25;

pub const ID_PREFERRED_PATH_SEPARATOR: i16 = 26;

pub const ID_FEATURES: i16 = 27;

pub const ID_CATEGORY_NAMES: i16 = 28;

pub const ID_BLOCK_CATEGORIES: i16 = 29;

pub const ID_HOLE_BLOCK_INDEX: i16 = 34;

pub const ID_LARGE_HOLE_SIZE: i16 = 35;

pub const ID_TOTAL_ALLOCATED_FS_SIZE: i16 = 36;

/// A chunk of file data: a (block, offset, size) view into a BLOCK
/// section.
#[derive(Debug, Clone, Copy, PartialEq, Eq, Structural)]
pub struct Chunk {
    /// Block number (index into the array of BLOCK sections).
    pub block: u32,
    /// Byte offset of the chunk within the block.
    pub offset: u32,
    /// Byte length of the chunk.
    pub size: u32,
}

/// A directory entry: a (name, inode) pair.
#[derive(Debug, Clone, Copy, PartialEq, Eq, Structural)]
pub struct DirEntry {
    /// Index into the names table.
    pub name_index: u32,
    /// Inode number this entry points at.
    pub inode_num: u32,
}

/// A directory record, indexed by inode number.
#[derive(Debug, Clone, Copy, PartialEq, Eq, Structural)]
pub struct Directory {
    /// Parent entry index (into `dir_entries`).
    pub parent_entry: u32,
    /// First entry of this directory in `dir_entries`. Stored
    /// delta-packed when `fs_options.packed_directories` is set; this
    /// field carries the raw value.
    pub first_entry: u32,
    /// Self entry index (v2.5+).
    pub self_entry: u32,
}

impl Default for Directory {
    fn default() -> (r: Self)
        ensures
            r == (Directory { parent_entry: 0, first_entry: 0, self_entry: 0 }),
    {
        Directory { parent_entry: 0, first_entry: 0, self_entry: 0 }
    }
}

/// Filesystem-wide options recorded alongside the metadata
/// (`fs_options`). All boolean fields default to false when absent.
#[derive(Debug, Clone, Copy, PartialEq, Eq, Structural)]
pub struct FsOptions {
    /// True when only `mtime` is stored per inode (no atime/ctime).
    pub mtime_only: bool,
    /// Time-stamp resolution in seconds. `None` falls back to 1 s.
    pub time_resolution_sec: Option<u32>,
    /// `chunk_table` is delta-packed.
    pub packed_chunk_table: bool,
    /// `directories[*].first_entry` is delta-packed.
    pub packed_directories: bool,
    /// `shared_files_table` is run-length-packed.
    pub packed_shared_files_table: bool,
    /// Sub-second resolution multiplier; `None` falls back to 1.
    pub subsecond_resolution_nsec_multiplier: Option<u32>,
    /// True when birth-time fields are populated on inodes.
    pub has_btime: bool,
    /// True when `inode_data.nlink_minus_one` carries a valid value.
    pub inodes_have_nlink: bool,
}

impl FsOptions {
    /// Every option off.
    pub open spec fn unset() -> FsOptions {
        FsOptions {
            mtime_only: false,
            time_resolution_sec: None,
            packed_chunk_table: false,
            packed_directories: false,
            packed_shared_files_table: false,
            subsecond_resolution_nsec_multiplier: None,
            has_btime: false,
            inodes_have_nlink: false,
        }
    }
}

impl Default for FsOptions {
    fn default() -> (r: Self)
        ensures
            r == FsOptions::unset(),
    {
        FsOptions {
            mtime_only: false,
            time_resolution_sec: None,
            packed_chunk_table: false,
            packed_directories: false,
            packed_shared_files_table: false,
            subsecond_resolution_nsec_multiplier: None,
            has_btime: false,
            inodes_have_nlink: false,
        }
    }
}

impl View for FsOptions {
    type V = FsOptions;

    open spec fn view(&self) -> FsOptions {
        *self
    }
}

/// Per-inode metadata.
///
/// Time offsets are relative to `metadata.timestamp_base` and scaled
/// by `fs_options.time_resolution_sec`. Subsecond parts are scaled by
/// `fs_options.subsecond_resolution_nsec_multiplier`. Both come from
/// the [`Metadata`] accessors.
#[derive(Debug, Clone, Copy, PartialEq, Eq, Structural)]
pub struct InodeData {
    /// Index into the modes table.
    pub mode_index: u32,
    /// Index into the uids table.
    pub owner_index: u32,
    /// Index into the gids table.
    pub group_index: u32,
    /// Access time offset.
    pub atime_offset: u64,
    /// Modification time offset.
    pub mtime_offset: u64,
    /// Status-change time offset.
    pub ctime_offset: u64,
    /// Birth (creation) time offset (v2.5+).
    pub btime_offset: u64,
    /// Sub-second part of `atime`.
    pub atime_subsec: u64,
    /// Sub-second part of `mtime`.
    pub mtime_subsec: u64,
    /// Sub-second part of `ctime`.
    pub ctime_subsec: u64,
    /// Sub-second part of `btime`.
    pub btime_subsec: u64,
    /// `nlink - 1`. Valid when `fs_options.inodes_have_nlink` is set.
    pub nlink_minus_one: u32,
}

impl Default for InodeData {
    fn default() -> (r: Self)
        ensures
            r == (InodeData {
                mode_index: 0,
                owner_index: 0,
                group_index: 0,
                atime_offset: 0,
                mtime_offset: 0,
                ctime_offset: 0,
                btime_offset: 0,
                atime_subsec: 0,
                mtime_subsec: 0,
                ctime_subsec: 0,
                btime_subsec: 0,
                nlink_minus_one: 0,
            }),
    {
        InodeData {
            mode_index: 0,
            owner_index: 0,
            group_index: 0,
            atime_offset: 0,
            mtime_offset: 0,
            ctime_offset: 0,
            btime_offset: 0,
            atime_subsec: 0,
            mtime_subsec: 0,
            ctime_subsec: 0,
            btime_subsec: 0,
            nlink_minus_one: 0,
        }
    }
}

/// The complaint that a value does not fit its type.
pub open spec fn range_error(name: Seq<char>, value: u64) -> ErrorView {
    model_error(name + " value "@ + dec(value as nat) + " out of range for target type"@)
}

/// The complaint about a list that is too long.
pub open spec fn cap_error(field: Seq<char>, cap: u64, value: u64) -> ErrorView {
    ErrorView::CapExceeded { field, cap, value }
}

/// The field `id` of a struct as a `u32`; zero when it was elided.
pub open spec fn u32_field(f: FrozenView, pos: Pos, layout: LayoutView, id: i16) -> Result<
    u32,
    ErrorView,
> {
    match f.int_or_zero(pos, layout, id) {
        Ok(v) => if v > u32::MAX {
            Err(
                model_error(
                    "struct field "@ + dec_signed(id as int) + " value "@ + dec(v as nat)
                        + " overflows u32"@,
                ),
            )
        } else {
            Ok(v as u32)
        },
        Err(e) => Err(e),
    }
}

/// The boolean field `id` of a struct; false when it was elided.
pub open spec fn bool_field(f: FrozenView, pos: Pos, layout: LayoutView, id: i16) -> Result<
    bool,
    ErrorView,
> {
    match f.int_or_zero(pos, layout, id) {
        Ok(v) => Ok(v != 0),
        Err(e) => Err(e),
    }
}

/// The field `id` of a struct as an optional `u32`.
pub open spec fn optional_u32_field(f: FrozenView, pos: Pos, layout: LayoutView, id: i16) -> Result<
    Option<u32>,
    ErrorView,
> {
    match layout.field(id) {
        None => Ok(None),
        Some(field) => match f.schema.layout(field.layout_id) {
            Err(e) => Err(e),
            Ok(outer) => match kind_of(outer, f.schema) {
                Err(e) => Err(e),
                Ok(LayoutKind::Optional { value_layout_id }) => match f.optional(
                    pos.at(field),
                    outer,
                ) {
                    Err(e) => Err(e),
                    Ok(opt) => if !opt.present {
                        Ok(None)
                    } else {
                        match value_layout_id {
                            None => Ok(Some(0u32)),
                            Some(vid) => match f.schema.layout(vid) {
                                Err(e) => Err(e),
                                Ok(value) => match read_bits(
                                    f.bytes,
                                    opt.value_pos.abs(),
                                    value.bits as u32,
                                ) {
                                    Err(e) => Err(e),
                                    Ok(v) => if v > u32::MAX {
                                        Err(
                                            model_error(
                                                "optional u32 field "@ + dec_signed(id as int)
                                                    + " value "@ + dec(v as nat) + " overflows"@,
                                            ),
                                        )
                                    } else {
                                        Ok(Some(v as u32))
                                    },
                                },
                            },
                        }
                    },
                },
                Ok(_) => match read_bits(f.bytes, pos.at(field).abs(), outer.bits as u32) {
                    Err(e) => Err(e),
                    Ok(v) => if v > u32::MAX {
                        Err(
                            model_error(
                                "u32 field "@ + dec_signed(id as int) + " value "@ + dec(v as nat)
                                    + " overflows"@,
                            ),
                        )
                    } else {
                        Ok(Some(v as u32))
                    },
                },
            },
        },
    }
}

/// The string field `id` of a struct; empty when it was elided.
pub open spec fn string_field(f: FrozenView, pos: Pos, layout: LayoutView, id: i16) -> Result<
    Seq<u8>,
    ErrorView,
> {
    match layout.field(id) {
        None => Ok(Seq::empty()),
        Some(field) => match f.schema.layout(field.layout_id) {
            Err(e) => Err(e),
            Ok(l) => f.string_bytes(pos.at(field), l),
        },
    }
}

/// The field `id` of a struct as an optional string. A string stored
/// without the optional wrapper counts as always present.
pub open spec fn optional_string_field(
    f: FrozenView,
    pos: Pos,
    layout: LayoutView,
    id: i16,
) -> Result<Option<Seq<u8>>, ErrorView> {
    match layout.field(id) {
        None => Ok(None),
        Some(field) => match f.schema.layout(field.layout_id) {
            Err(e) => Err(e),
            Ok(outer) => match kind_of(outer, f.schema) {
                Err(e) => Err(e),
                Ok(LayoutKind::Optional { value_layout_id }) => match f.optional(
                    pos.at(field),
                    outer,
                ) {
                    Err(e) => Err(e),
                    Ok(opt) => if !opt.present {
                        Ok(None)
                    } else {
                        match value_layout_id {
                            None => Ok(Some(Seq::empty())),
                            Some(vid) => match f.schema.layout(vid) {
                                Err(e) => Err(e),
                                Ok(value) => match f.string_bytes(opt.value_pos, value) {
                                    Err(e) => Err(e),
                                    Ok(s) => Ok(Some(s)),
                                },
                            },
                        }
                    },
                },
                Ok(_) => match f.string_bytes(pos.at(field), outer) {
                    Err(e) => Err(e),
                    Ok(s) => Ok(Some(s)),
                },
            },
        },
    }
}

/// Element `i` of a range of integers.
pub open spec fn int_at(f: FrozenView, range: RangeView, bits: u32) -> spec_fn(nat) -> Result<
    u64,
    ErrorView,
> {
    |i: nat|
        match f.element(range, i as u64) {
            Ok(pos) => read_bits(f.bytes, pos.abs(), bits),
            Err(e) => Err(e),
        }
}

/// The integers of a range. Items without storage are all zero.
pub open spec fn range_ints(f: FrozenView, range: RangeView, bits: u32) -> Result<
    Seq<u64>,
    ErrorView,
> {
    if bits == 0 {
        Ok(Seq::new(range.count as nat, |i: int| 0u64))
    } else {
        collect(range.count as nat, int_at(f, range, bits))
    }
}

/// The integers of the list field `id` of a struct.
pub open spec fn int_list_field(f: FrozenView, pos: Pos, layout: LayoutView, id: i16, cap: u64) ->
    Result<Seq<u64>, ErrorView> {
    match layout.field(id) {
        None => Ok(Seq::empty()),
        Some(field) => match f.schema.layout(field.layout_id) {
            Err(e) => Err(e),
            Ok(list) => match kind_of(list, f.schema) {
                Err(e) => Err(e),
                Ok(kind) => match f.range(pos.at(field), list) {
                    Err(e) => Err(e),
                    Ok(range) => if range.count > cap {
                        Err(cap_error("list-count"@, cap, range.count))
                    } else {
                        match kind {
                            LayoutKind::Array { item_layout_id } => match f.schema.layout(
                                item_layout_id,
                            ) {
                                Err(e) => Err(e),
                                Ok(item) => range_ints(f, range, item.bits as u32),
                            },
                            LayoutKind::String => Ok(
                                Seq::new(range.count as nat, |i: int| 0u64),
                            ),
                            _ => Err(
                                model_error(
                                    "struct field "@ + dec_signed(id as int)
                                        + " is not a list (kind="@ + kind.text() + ")"@,
                                ),
                            ),
                        }
                    },
                },
            },
        },
    }
}

/// Which list a number that must fit 32 bits stands in.
#[derive(Clone, Copy)]
pub enum Narrow {
    /// An element of the root list with this id.
    Element(i16),
    /// A block category.
    Category,
    /// An offset of a string table.
    TableIndex,
}

impl Narrow {
    /// The complaint about `v`.
    pub open spec fn error(self, v: u64) -> ErrorView {
        match self {
            Narrow::Element(id) => model_error(
                "list element "@ + dec(v as nat) + " does not fit in u32 (field "@ + dec_signed(
                    id as int,
                ) + ")"@,
            ),
            Narrow::Category => range_error("block_categories"@, v),
            Narrow::TableIndex => model_error(
                "string_table index value "@ + dec(v as nat) + " overflows u32"@,
            ),
        }
    }

    pub(crate) fn complain(self, v: u64) -> (e: Error)
        ensures
            e@ == self.error(v),
    {
        match self {
            Narrow::Element(id) => decode(
                Text::of("list element ").num(v).str(" does not fit in u32 (field ").signed(
                    id as i64,
                ).str(")"),
            ),
            Narrow::Category => out_of_range("block_categories", v),
            Narrow::TableIndex => decode(
                Text::of("string_table index value ").num(v).str(" overflows u32"),
            ),
        }
    }
}

/// Element `i` of `values` in 32 bits.
pub open spec fn narrow_at(values: Seq<u64>, which: Narrow) -> spec_fn(nat) -> Result<
    u32,
    ErrorView,
> {
    |i: nat|
        if values[i as int] > u32::MAX {
            Err(which.error(values[i as int]))
        } else {
            Ok(values[i as int] as u32)
        }
}

/// `values` in 32 bits each, or the complaint about the first that does
/// not fit.
pub open spec fn narrowed(values: Result<Seq<u64>, ErrorView>, which: Narrow) -> Result<
    Seq<u32>,
    ErrorView,
> {
    match values {
        Ok(values) => collect(values.len(), narrow_at(values, which)),
        Err(e) => Err(e),
    }
}

/// An optional number in 32 bits.
pub open spec fn narrowed_option(v: Result<Option<u64>, ErrorView>, name: Seq<char>) -> Result<
    Option<u32>,
    ErrorView,
> {
    match v {
        Ok(None) => Ok(None),
        Ok(Some(v)) => if v > u32::MAX {
            Err(range_error(name, v))
        } else {
            Ok(Some(v as u32))
        },
        Err(e) => Err(e),
    }
}

/// Run-length unpacking of the shared-files table: entry `i` of value
/// `k` stands for `k + 2` copies of `i`.
pub open spec fn unpack_runs(raw: Seq<u32>) -> Seq<u32>
    decreases raw.len(),
{
    if raw.len() == 0 {
        Seq::empty()
    } else {
        unpack_runs(raw.drop_last()) + Seq::new(
            (raw.last() + 2) as nat,
            |i: int| (raw.len() - 1) as u32,
        )
    }
}

/// Where the first run too long for the machine stands, if any.
pub open spec fn first_long_run(raw: Seq<u32>) -> Option<u32>
    decreases raw.len(),
{
    if raw.len() == 0 {
        None
    } else if first_long_run(raw.drop_last()) is Some {
        first_long_run(raw.drop_last())
    } else if raw.last() + 2 > usize::MAX {
        Some(raw.last())
    } else {
        None
    }
}

/// A struct stored in the metadata.
pub trait FrozenStruct: Sized {
    /// The struct at `pos`, its fields placed by `layout`.
    spec fn at(f: FrozenView, pos: Pos, layout: LayoutView) -> Result<Self, ErrorView>;

    /// Read the struct at `pos`.
    fn read(frozen: &Frozen<'_>, pos: Pos, layout: &Layout) -> (r: Result<Self, Error>)
        ensures
            match r {
                Ok(v) => Self::at(frozen@, pos, layout@) == Ok::<Self, ErrorView>(v),
                Err(e) => Self::at(frozen@, pos, layout@) == Err::<Self, ErrorView>(e@),
            },
    ;
}

/// Read a struct field as `u32`. Missing fields decode as zero.
fn read_struct_u32(frozen: &Frozen<'_>, pos: Pos, layout: &Layout, field_id: i16) -> (r: Result<
    u32,
    Error,
>)
    ensures
        outcome(r, u32_field(frozen@, pos, layout@, field_id)),
{
    match frozen.int_or_zero(pos, layout, field_id) {
        Ok(v) => if v > u32::MAX as u64 {
            Err(
                decode(
                    Text::of("struct field ").signed(field_id as i64).str(" value ").num(v).str(
                        " overflows u32",
                    ),
                ),
            )
        } else {
            Ok(v as u32)
        },
        Err(e) => Err(e),
    }
}

impl FrozenStruct for Chunk {
    open spec fn at(f: FrozenView, pos: Pos, layout: LayoutView) -> Result<Self, ErrorView> {
        match (
            u32_field(f, pos, layout, 1),
            u32_field(f, pos, layout, 2),
            u32_field(f, pos, layout, 3),
        ) {
            (Err(e), _, _) => Err(e),
            (_, Err(e), _) => Err(e),
            (_, _, Err(e)) => Err(e),
            (Ok(block), Ok(offset), Ok(size)) => Ok(Chunk { block, offset, size }),
        }
    }

    fn read(frozen: &Frozen<'_>, pos: Pos, layout: &Layout) -> (r: Result<Self, Error>) {
        Ok(
            Chunk {
                block: read_struct_u32(frozen, pos, layout, 1)?,
                offset: read_struct_u32(frozen, pos, layout, 2)?,
                size: read_struct_u32(frozen, pos, layout, 3)?,
            },
        )
    }
}

impl FrozenStruct for DirEntry {
    open spec fn at(f: FrozenView, pos: Pos, layout: LayoutView) -> Result<Self, ErrorView> {
        match (u32_field(f, pos, layout, 1), u32_field(f, pos, layout, 2)) {
            (Err(e), _) => Err(e),
            (_, Err(e)) => Err(e),
            (Ok(name_index), Ok(inode_num)) => Ok(DirEntry { name_index, inode_num }),
        }
    }

    fn read(frozen: &Frozen<'_>, pos: Pos, layout: &Layout) -> (r: Result<Self, Error>) {
        Ok(
            DirEntry {
                name_index: read_struct_u32(frozen, pos, layout, 1)?,
                inode_num: read_struct_u32(frozen, pos, layout, 2)?,
            },
        )
    }
}

impl FrozenStruct for Directory {
    open spec fn at(f: FrozenView, pos: Pos, layout: LayoutView) -> Result<Self, ErrorView> {
        match (
            u32_field(f, pos, layout, 1),
            u32_field(f, pos, layout, 2),
            u32_field(f, pos, layout, 3),
        ) {
            (Err(e), _, _) => Err(e),
            (_, Err(e), _) => Err(e),
            (_, _, Err(e)) => Err(e),
            (Ok(parent_entry), Ok(first_entry), Ok(self_entry)) => Ok(
                Directory { parent_entry, first_entry, self_entry },
            ),
        }
    }

    fn read(frozen: &Frozen<'_>, pos: Pos, layout: &Layout) -> (r: Result<Self, Error>) {
        Ok(
            Directory {
                parent_entry: read_struct_u32(frozen, pos, layout, 1)?,
                first_entry: read_struct_u32(frozen, pos, layout, 2)?,
                self_entry: read_struct_u32(frozen, pos, layout, 3)?,
            },
        )
    }
}

impl FrozenStruct for InodeData {
    open spec fn at(f: FrozenView, pos: Pos, layout: LayoutView) -> Result<Self, ErrorView> {
        let mode = u32_field(f, pos, layout, 2);
        let owner = u32_field(f, pos, layout, 4);
        let group = u32_field(f, pos, layout, 5);
        let atime = f.int_or_zero(pos, layout, 6);
        let mtime = f.int_or_zero(pos, layout, 7);
        let ctime = f.int_or_zero(pos, layout, 8);
        let btime = f.int_or_zero(pos, layout, 9);
        let atime_sub = f.int_or_zero(pos, layout, 10);
        let mtime_sub = f.int_or_zero(pos, layout, 11);
        let ctime_sub = f.int_or_zero(pos, layout, 12);
        let btime_sub = f.int_or_zero(pos, layout, 13);
        let nlink = u32_field(f, pos, layout, 14);
        if let Err(e) = mode {
            Err(e)
        } else if let Err(e) = owner {
            Err(e)
        } else if let Err(e) = group {
            Err(e)
        } else if let Err(e) = atime {
            Err(e)
        } else if let Err(e) = mtime {
            Err(e)
        } else if let Err(e) = ctime {
            Err(e)
        } else if let Err(e) = btime {
            Err(e)
        } else if let Err(e) = atime_sub {
            Err(e)
        } else if let Err(e) = mtime_sub {
            Err(e)
        } else if let Err(e) = ctime_sub {
            Err(e)
        } else if let Err(e) = btime_sub {
            Err(e)
        } else if let Err(e) = nlink {
            Err(e)
        } else {
            Ok(
                InodeData {
                    mode_index: mode->Ok_0,
                    owner_index: owner->Ok_0,
                    group_index: group->Ok_0,
                    atime_offset: atime->Ok_0,
                    mtime_offset: mtime->Ok_0,
                    ctime_offset: ctime->Ok_0,
                    btime_offset: btime->Ok_0,
                    atime_subsec: atime_sub->Ok_0,
                    mtime_subsec: mtime_sub->Ok_0,
                    ctime_subsec: ctime_sub->Ok_0,
                    btime_subsec: btime_sub->Ok_0,
                    nlink_minus_one: nlink->Ok_0,
                },
            )
        }
    }

    fn read(frozen: &Frozen<'_>, pos: Pos, layout: &Layout) -> (r: Result<Self, Error>) {
        Ok(
            InodeData {
                mode_index: read_struct_u32(frozen, pos, layout, 2)?,
                owner_index: read_struct_u32(frozen, pos, layout, 4)?,
                group_index: read_struct_u32(frozen, pos, layout, 5)?,
                atime_offset: frozen.int_or_zero(pos, layout, 6)?,
                mtime_offset: frozen.int_or_zero(pos, layout, 7)?,
                ctime_offset: frozen.int_or_zero(pos, layout, 8)?,
                btime_offset: frozen.int_or_zero(pos, layout, 9)?,
                atime_subsec: frozen.int_or_zero(pos, layout, 10)?,
                mtime_subsec: frozen.int_or_zero(pos, layout, 11)?,
                ctime_subsec: frozen.int_or_zero(pos, layout, 12)?,
                btime_subsec: frozen.int_or_zero(pos, layout, 13)?,
                nlink_minus_one: read_struct_u32(frozen, pos, layout, 14)?,
            },
        )
    }
}

pub(crate) fn decode(message: Text) -> (e: Error)
    ensures
        e@ == model_error(message@),
{
    Error::Decode { codec: "frozen2-model", message: message.done() }
}

pub(crate) fn missing_field(id: i16) -> (e: Error)
    ensures
        e@ == model_error("required metadata field "@ + dec_signed(id as int) + " missing"@),
{
    decode(Text::of("required metadata field ").signed(id as i64).str(" missing"))
}

pub(crate) fn out_of_range(name: &'static str, value: u64) -> (e: Error)
    ensures
        e@ == range_error(name@, value),
{
    decode(Text::of(name).str(" value ").num(value).str(" out of range for target type"))
}

} // verus!
