//! The root struct of the metadata: one accessor per table.

use crate::collect::{collect, collect_from, lemma_collect_ok};
use crate::error::{Error, ErrorView, outcome};
use crate::metadata::bitbuf::read_bits;
use crate::metadata::frozen::{
    FieldView, Frozen, FrozenView, LayoutKind, OptionalView, Pos, RangeView, kind_of,
};
use crate::metadata::model::{
    Chunk, DEFAULT_LIST_CAP, DirEntry, Directory, FrozenStruct, FsOptions, ID_BLOCK_CATEGORIES,
    ID_BLOCK_SIZE, ID_CATEGORY_NAMES, ID_CHUNK_TABLE, ID_CHUNKS, ID_COMPACT_NAMES,
    ID_COMPACT_SYMLINKS, ID_DEVICES, ID_DIR_ENTRIES, ID_DIRECTORIES, ID_FEATURES, ID_GIDS,
    ID_HOLE_BLOCK_INDEX, ID_INODES, ID_LARGE_HOLE_SIZE, ID_MODES, ID_NAMES, ID_OPTIONS,
    ID_PREFERRED_PATH_SEPARATOR, ID_SHARED_FILES_TABLE, ID_SYMLINK_TABLE, ID_SYMLINKS,
    ID_TIMESTAMP_BASE, ID_TOTAL_ALLOCATED_FS_SIZE, ID_TOTAL_FS_SIZE, ID_UIDS, InodeData, Narrow,
    bool_field, cap_error, decode, first_long_run, int_at, int_list_field, missing_field,
    narrow_at, narrowed, narrowed_option, optional_string_field, optional_u32_field, out_of_range,
    range_error, range_ints, string_field, unpack_runs,
};
use crate::metadata::schema::{Field, Layout, LayoutView, Schema, SchemaView, map_is_empty};
use crate::metadata::string_table::{
    byte_strings, decode_string_table, model_error, optional_bytes, table_strings,
};
use crate::text::{Text, dec_signed};
use crate::utf8::{text_of, to_text};
use vstd::prelude::*;

verus! {

/// A metadata blob, its schema, and the layout of its root struct.
#[verifier::ext_equal]
pub struct MetadataView {
    pub frozen: FrozenView,
    pub root: LayoutView,
}

/// The root struct stands at the start of the blob.
pub open spec fn origin() -> Pos {
    Pos { byte: 0, bit: 0 }
}

/// String `i` of a range of strings. Each element's distance counts from
/// its own element position.
pub open spec fn string_at(f: FrozenView, range: RangeView, item: LayoutView) -> spec_fn(
    nat,
) -> Result<Seq<u8>, ErrorView> {
    |i: nat|
        match f.element(range, i as u64) {
            Ok(pos) => f.string_bytes(pos, item),
            Err(e) => Err(e),
        }
}

/// String `i` of a range of UTF-8 strings.
pub open spec fn text_at(
    f: FrozenView,
    range: RangeView,
    item: LayoutView,
    name: Seq<char>,
) -> spec_fn(nat) -> Result<Seq<char>, ErrorView> {
    |i: nat|
        match string_at(f, range, item)(i) {
            Ok(bytes) => match text_of(bytes) {
                Some(text) => Ok(text),
                None => Err(model_error("non-utf8 string in "@ + name)),
            },
            Err(e) => Err(e),
        }
}

/// Struct `i` of a range of structs.
pub open spec fn struct_at<T: FrozenStruct>(
    f: FrozenView,
    range: RangeView,
    item: LayoutView,
) -> spec_fn(nat) -> Result<T, ErrorView> {
    |i: nat|
        match f.element(range, i as u64) {
            Ok(pos) => T::at(f, pos, item),
            Err(e) => Err(e),
        }
}

/// The texts behind a list of strings.
pub open spec fn texts(v: Seq<String>) -> Seq<Seq<char>> {
    v.map_values(|s: String| s@)
}

impl MetadataView {
    /// The blob `bytes` under `schema`.
    pub open spec fn parse(schema: SchemaView, bytes: Seq<u8>) -> Result<MetadataView, ErrorView> {
        match schema.root() {
            Ok(root) => Ok(MetadataView { frozen: FrozenView { schema, bytes }, root }),
            Err(e) => Err(e),
        }
    }

    /// The root integer `id`, which must be declared.
    pub open spec fn root_int(self, id: i16) -> Result<u64, ErrorView> {
        match self.root.field(id) {
            None => Err(
                model_error("required metadata field "@ + dec_signed(id as int) + " missing"@),
            ),
            Some(_) => self.frozen.int_or_zero(origin(), self.root, id),
        }
    }

    /// The root optional integer `id`.
    pub open spec fn optional_int(self, id: i16) -> Result<Option<u64>, ErrorView> {
        match self.root.field(id) {
            None => Ok(None),
            Some(field) => match self.frozen.schema.layout(field.layout_id) {
                Err(e) => Err(e),
                Ok(layout) => match self.frozen.optional(origin().at(field), layout) {
                    Err(e) => Err(e),
                    Ok(opt) => if !opt.present {
                        Ok(None)
                    } else {
                        match opt.value_layout_id {
                            None => Ok(Some(0u64)),
                            Some(vid) => match self.frozen.schema.layout(vid) {
                                Err(e) => Err(e),
                                Ok(value) => match read_bits(
                                    self.frozen.bytes,
                                    opt.value_pos.abs(),
                                    value.bits as u32,
                                ) {
                                    Err(e) => Err(e),
                                    Ok(v) => Ok(Some(v)),
                                },
                            },
                        }
                    },
                },
            },
        }
    }

    /// The layout and position of the root field `id`, behind its optional
    /// wrapper if it has one; nothing when the field is not declared, the
    /// optional is unset, or its value carries no storage.
    pub open spec fn resolve(self, id: i16) -> Result<Option<(LayoutView, Pos)>, ErrorView> {
        match self.root.field(id) {
            None => Ok(None),
            Some(field) => match self.frozen.schema.layout(field.layout_id) {
                Err(e) => Err(e),
                Ok(outer) => match kind_of(outer, self.frozen.schema) {
                    Err(e) => Err(e),
                    Ok(LayoutKind::Optional { value_layout_id }) => match self.frozen.optional(
                        origin().at(field),
                        outer,
                    ) {
                        Err(e) => Err(e),
                        Ok(opt) => if !opt.present {
                            Ok(None)
                        } else {
                            match value_layout_id {
                                None => Ok(None),
                                Some(vid) => match self.frozen.schema.layout(vid) {
                                    Err(e) => Err(e),
                                    Ok(inner) => Ok(Some((inner, opt.value_pos))),
                                },
                            }
                        },
                    },
                    Ok(_) => Ok(Some((outer, origin().at(field)))),
                },
            },
        }
    }

    /// The root list of integers `id`.
    pub open spec fn int_list(self, id: i16, cap: u64) -> Result<Seq<u64>, ErrorView> {
        match self.resolve(id) {
            Err(e) => Err(e),
            Ok(None) => Ok(Seq::empty()),
            Ok(Some((list, pos))) => match kind_of(list, self.frozen.schema) {
                Err(e) => Err(e),
                Ok(kind) => match self.frozen.range(pos, list) {
                    Err(e) => Err(e),
                    Ok(range) => if range.count > cap {
                        Err(cap_error("list-count"@, cap, range.count))
                    } else {
                        match kind {
                            LayoutKind::Array { item_layout_id } =>
                            match self.frozen.schema.layout(item_layout_id) {
                                Err(e) => Err(e),
                                Ok(item) => if item.fields != Map::<i16, Field>::empty() {
                                    Err(
                                        model_error(
                                            "field "@ + dec_signed(id as int)
                                                + " elements are not integral"@,
                                        ),
                                    )
                                } else {
                                    range_ints(self.frozen, range, item.bits as u32)
                                },
                            },
                            LayoutKind::String => Ok(
                                Seq::new(range.count as nat, |i: int| 0u64),
                            ),
                            _ => Err(
                                model_error(
                                    "field "@ + dec_signed(id as int) + " is not a list (kind="@
                                        + kind.text() + ")"@,
                                ),
                            ),
                        }
                    },
                },
            },
        }
    }

    /// The root list of 32-bit integers `id`.
    pub open spec fn u32_list(self, id: i16) -> Result<Seq<u32>, ErrorView> {
        narrowed(self.int_list(id, DEFAULT_LIST_CAP), Narrow::Element(id))
    }

    /// The root list of structs `id`.
    pub open spec fn struct_list<T: FrozenStruct>(self, id: i16) -> Result<Seq<T>, ErrorView> {
        match self.resolve(id) {
            Err(e) => Err(e),
            Ok(None) => Ok(Seq::empty()),
            Ok(Some((list, pos))) => match kind_of(list, self.frozen.schema) {
                Err(e) => Err(e),
                Ok(LayoutKind::Array { item_layout_id }) => match self.frozen.range(pos, list) {
                    Err(e) => Err(e),
                    Ok(range) => if range.count > DEFAULT_LIST_CAP {
                        Err(cap_error("list-count"@, DEFAULT_LIST_CAP, range.count))
                    } else {
                        match self.frozen.schema.layout(item_layout_id) {
                            Err(e) => Err(e),
                            Ok(item) => collect(
                                range.count as nat,
                                struct_at::<T>(self.frozen, range, item),
                            ),
                        }
                    },
                },
                Ok(kind) => Err(
                    model_error(
                        "field "@ + dec_signed(id as int) + " is not an array (kind="@
                            + kind.text() + ")"@,
                    ),
                ),
            },
        }
    }

    /// The root list of byte strings `id`.
    pub open spec fn string_list(self, id: i16) -> Result<Seq<Seq<u8>>, ErrorView> {
        match self.resolve(id) {
            Err(e) => Err(e),
            Ok(None) => Ok(Seq::empty()),
            Ok(Some((list, pos))) => match kind_of(list, self.frozen.schema) {
                Err(e) => Err(e),
                Ok(LayoutKind::Array { item_layout_id }) => match self.frozen.range(pos, list) {
                    Err(e) => Err(e),
                    Ok(range) => if range.count > DEFAULT_LIST_CAP {
                        Err(cap_error("list-count"@, DEFAULT_LIST_CAP, range.count))
                    } else {
                        match self.frozen.schema.layout(item_layout_id) {
                            Err(e) => Err(e),
                            Ok(item) => collect(
                                range.count as nat,
                                string_at(self.frozen, range, item),
                            ),
                        }
                    },
                },
                Ok(_) => Err(
                    model_error(
                        "field "@ + dec_signed(id as int) + " is not an array of strings"@,
                    ),
                ),
            },
        }
    }

    /// The root list of UTF-8 strings `id`, called `name` in complaints.
    pub open spec fn text_list(self, id: i16, name: Seq<char>) -> Result<
        Seq<Seq<char>>,
        ErrorView,
    > {
        match self.resolve(id) {
            Err(e) => Err(e),
            Ok(None) => Ok(Seq::empty()),
            Ok(Some((list, pos))) => match kind_of(list, self.frozen.schema) {
                Err(e) => Err(e),
                Ok(LayoutKind::Array { item_layout_id }) => match self.frozen.range(pos, list) {
                    Err(e) => Err(e),
                    Ok(range) => if range.count > DEFAULT_LIST_CAP {
                        Err(cap_error(name, DEFAULT_LIST_CAP, range.count))
                    } else {
                        match self.frozen.schema.layout(item_layout_id) {
                            Err(e) => Err(e),
                            Ok(item) => collect(
                                range.count as nat,
                                text_at(self.frozen, range, item, name),
                            ),
                        }
                    },
                },
                Ok(_) => Err(
                    model_error(
                        name + " (id "@ + dec_signed(id as int) + ") is not a range"@,
                    ),
                ),
            },
        }
    }

    /// The strings of the string table struct at `pos`: a buffer (1), an
    /// optional symbol table (2), an index (3), and whether it is packed
    /// (4).
    pub open spec fn table_at(self, pos: Pos, layout: LayoutView) -> Result<
        Seq<Seq<u8>>,
        ErrorView,
    > {
        let f = self.frozen;
        match string_field(f, pos, layout, 1) {
            Err(e) => Err(e),
            Ok(buffer) => match optional_string_field(f, pos, layout, 2) {
                Err(e) => Err(e),
                Ok(symtab) => match int_list_field(f, pos, layout, 3, DEFAULT_LIST_CAP) {
                    Err(e) => Err(e),
                    Ok(raw) => match bool_field(f, pos, layout, 4) {
                        Err(e) => Err(e),
                        Ok(packed) => match narrowed(
                            Ok::<Seq<u64>, ErrorView>(raw),
                            Narrow::TableIndex,
                        ) {
                            Err(e) => Err(e),
                            Ok(index) => table_strings(buffer, symtab, index, packed),
                        },
                    },
                },
            },
        }
    }

    /// The root optional string table `id`.
    pub open spec fn string_table(self, id: i16) -> Result<Option<Seq<Seq<u8>>>, ErrorView> {
        match self.root.field(id) {
            None => Ok(None),
            Some(field) => match self.frozen.schema.layout(field.layout_id) {
                Err(e) => Err(e),
                Ok(outer) => match kind_of(outer, self.frozen.schema) {
                    Err(e) => Err(e),
                    Ok(LayoutKind::Optional { value_layout_id }) => match self.frozen.optional(
                        origin().at(field),
                        outer,
                    ) {
                        Err(e) => Err(e),
                        Ok(opt) => if !opt.present {
                            Ok(None)
                        } else {
                            match value_layout_id {
                                None => Ok(Some(Seq::empty())),
                                Some(vid) => match self.frozen.schema.layout(vid) {
                                    Err(e) => Err(e),
                                    Ok(table) => match self.table_at(opt.value_pos, table) {
                                        Err(e) => Err(e),
                                        Ok(strings) => Ok(Some(strings)),
                                    },
                                },
                            }
                        },
                    },
                    Ok(_) => Err(
                        model_error(
                            "field "@ + dec_signed(id as int)
                                + " is not Optional<string_table>"@,
                        ),
                    ),
                },
            },
        }
    }

    /// The strings of a compact table, or of the plain list when the
    /// compact one is not set.
    pub open spec fn strings(self, compact: i16, plain: i16) -> Result<Seq<Seq<u8>>, ErrorView> {
        match self.string_table(compact) {
            Err(e) => Err(e),
            Ok(Some(table)) => Ok(table),
            Ok(None) => self.string_list(plain),
        }
    }

    /// The options struct at `pos`.
    pub open spec fn options_at(self, pos: Pos, layout: LayoutView) -> Result<
        FsOptions,
        ErrorView,
    > {
        let f = self.frozen;
        let mtime_only = bool_field(f, pos, layout, 1);
        let resolution = optional_u32_field(f, pos, layout, 2);
        let chunk_table = bool_field(f, pos, layout, 3);
        let directories = bool_field(f, pos, layout, 4);
        let shared_files = bool_field(f, pos, layout, 5);
        let multiplier = optional_u32_field(f, pos, layout, 6);
        let btime = bool_field(f, pos, layout, 7);
        let nlink = bool_field(f, pos, layout, 8);
        if let Err(e) = mtime_only {
            Err(e)
        } else if let Err(e) = resolution {
            Err(e)
        } else if let Err(e) = chunk_table {
            Err(e)
        } else if let Err(e) = directories {
            Err(e)
        } else if let Err(e) = shared_files {
            Err(e)
        } else if let Err(e) = multiplier {
            Err(e)
        } else if let Err(e) = btime {
            Err(e)
        } else if let Err(e) = nlink {
            Err(e)
        } else {
            Ok(
                FsOptions {
                    mtime_only: mtime_only->Ok_0,
                    time_resolution_sec: resolution->Ok_0,
                    packed_chunk_table: chunk_table->Ok_0,
                    packed_directories: directories->Ok_0,
                    packed_shared_files_table: shared_files->Ok_0,
                    subsecond_resolution_nsec_multiplier: multiplier->Ok_0,
                    has_btime: btime->Ok_0,
                    inodes_have_nlink: nlink->Ok_0,
                },
            )
        }
    }

    /// The filesystem options; all unset when the image records none.
    pub open spec fn fs_options(self) -> Result<FsOptions, ErrorView> {
        match self.resolve(ID_OPTIONS) {
            Err(e) => Err(e),
            Ok(None) => Ok(FsOptions::unset()),
            Ok(Some((layout, pos))) => self.options_at(pos, layout),
        }
    }

    /// The block size.
    pub open spec fn block_size(self) -> Result<u32, ErrorView> {
        match self.root_int(ID_BLOCK_SIZE) {
            Err(e) => Err(e),
            Ok(v) => if v > u32::MAX {
                Err(range_error("block_size"@, v))
            } else {
                Ok(v as u32)
            },
        }
    }

    /// The shared-files table, unpacked.
    pub open spec fn shared_files_table(self) -> Result<Seq<u32>, ErrorView> {
        match self.u32_list(ID_SHARED_FILES_TABLE) {
            Err(e) => Err(e),
            Ok(raw) => match self.fs_options() {
                Err(e) => Err(e),
                Ok(options) => if !options.packed_shared_files_table {
                    Ok(raw)
                } else {
                    match first_long_run(raw) {
                        Some(delta) => Err(
                            range_error("shared_files_table run length"@, delta as u64),
                        ),
                        None => Ok(unpack_runs(raw)),
                    }
                },
            },
        }
    }

    /// The category of each block.
    pub open spec fn block_categories(self) -> Result<Seq<u32>, ErrorView> {
        narrowed(self.int_list(ID_BLOCK_CATEGORIES, DEFAULT_LIST_CAP), Narrow::Category)
    }
}

impl MetadataView {
    /// The number of elements of the root table `id` and the bits of one,
    /// where the table is an array that has any.
    pub open spec fn table_size(self, id: i16) -> Option<(u64, u16)> {
        match self.resolve(id) {
            Ok(Some((layout, pos))) => match kind_of(layout, self.frozen.schema) {
                Ok(LayoutKind::Array { item_layout_id }) => match self.frozen.range(pos, layout) {
                    Err(_) => None,
                    Ok(range) => match self.frozen.schema.layout(item_layout_id) {
                        Err(_) => None,
                        Ok(item) => if range.count == 0 {
                            None
                        } else if item.bits == 0 {
                            Some((range.count, 1))
                        } else {
                            Some((range.count, item.bits))
                        },
                    },
                },
                _ => None,
            },
            _ => None,
        }
    }
}

/// Whether a list of byte strings is the modelled one.
pub open spec fn strings_outcome(
    r: Result<Vec<Vec<u8>>, Error>,
    want: Result<Seq<Seq<u8>>, ErrorView>,
) -> bool {
    match r {
        Ok(v) => want == Ok::<Seq<Seq<u8>>, ErrorView>(byte_strings(v@)),
        Err(e) => want == Err::<Seq<Seq<u8>>, ErrorView>(e@),
    }
}

/// Whether a list of strings is the modelled one.
pub open spec fn texts_outcome(
    r: Result<Vec<String>, Error>,
    want: Result<Seq<Seq<char>>, ErrorView>,
) -> bool {
    match r {
        Ok(v) => want == Ok::<Seq<Seq<char>>, ErrorView>(texts(v@)),
        Err(e) => want == Err::<Seq<Seq<char>>, ErrorView>(e@),
    }
}

/// Every integer list respects its cap.
pub proof fn lemma_int_list_capped(m: MetadataView, id: i16, cap: u64)
    ensures
        m.int_list(id, cap) matches Ok(v) ==> v.len() <= cap,
        narrowed(m.int_list(id, cap), Narrow::Element(id)) matches Ok(v) ==> v.len() <= cap,
        narrowed(m.int_list(id, cap), Narrow::Category) matches Ok(v) ==> v.len() <= cap,
{
    if let Ok(Some((list, pos))) = m.resolve(id) {
        if let Ok(kind) = kind_of(list, m.frozen.schema) {
            if let Ok(range) = m.frozen.range(pos, list) {
                if let LayoutKind::Array { item_layout_id } = kind {
                    if let Ok(item) = m.frozen.schema.layout(item_layout_id) {
                        let get = int_at(m.frozen, range, item.bits as u32);
                        if collect(range.count as nat, get) is Ok {
                            lemma_collect_ok(range.count as nat, get);
                        }
                    }
                }
            }
        }
    }
    if let Ok(v) = m.int_list(id, cap) {
        if narrowed(Ok(v), Narrow::Element(id)) is Ok {
            lemma_collect_ok(v.len(), narrow_at(v, Narrow::Element(id)));
        }
        if narrowed(Ok(v), Narrow::Category) is Ok {
            lemma_collect_ok(v.len(), narrow_at(v, Narrow::Category));
        }
    }
}

/// Every struct list respects the default cap.
pub proof fn lemma_struct_list_capped<T: FrozenStruct>(m: MetadataView, id: i16)
    ensures
        m.struct_list::<T>(id) matches Ok(v) ==> v.len() <= DEFAULT_LIST_CAP,
{
    if let Ok(Some((list, pos))) = m.resolve(id) {
        if let Ok(LayoutKind::Array { item_layout_id }) = kind_of(list, m.frozen.schema) {
            if let Ok(range) = m.frozen.range(pos, list) {
                if let Ok(item) = m.frozen.schema.layout(item_layout_id) {
                    let get = struct_at::<T>(m.frozen, range, item);
                    if collect(range.count as nat, get) is Ok {
                        lemma_collect_ok(range.count as nat, get);
                    }
                }
            }
        }
    }
}

/// Typed handle on a parsed Frozen2 metadata blob.
pub struct Metadata<'a> {
    frozen: Frozen<'a>,
    root_layout: &'a Layout,
}

impl<'a> View for Metadata<'a> {
    type V = MetadataView;

    closed spec fn view(&self) -> MetadataView {
        MetadataView { frozen: self.frozen@, root: self.root_layout@ }
    }
}

impl<'a> Metadata<'a> {
    /// Build a new typed view over the given schema and decoded blob.
    pub fn parse(schema: &'a Schema, bytes: &'a [u8]) -> (r: Result<Self, Error>)
        ensures
            outcome(r, MetadataView::parse(schema@, bytes@)),
    {
        let root_layout: &'a Layout = schema.root()?;
        Ok(Self { frozen: Frozen::new(schema, bytes), root_layout })
    }

    /// Borrow the underlying Frozen decoder.
    pub fn frozen(&self) -> (r: &Frozen<'a>)
        ensures
            r@ == self@.frozen,
    {
        &self.frozen
    }

    /// Borrow the parsed schema.
    pub fn schema(&self) -> (r: &'a Schema)
        ensures
            r@ == self@.frozen.schema,
    {
        self.frozen.schema()
    }

    /// File system block size, in bytes (root field 15).
    pub fn block_size(&self) -> (r: Result<u32, Error>)
        ensures
            outcome(r, self@.block_size()),
    {
        let v: u64 = self.read_int(ID_BLOCK_SIZE)?;
        if v > u32::MAX as u64 {
            return Err(out_of_range("block_size", v));
        }
        Ok(v as u32)
    }

    /// Total uncompressed filesystem size (root field 16).
    pub fn total_fs_size(&self) -> (r: Result<u64, Error>)
        ensures
            outcome(r, self@.root_int(ID_TOTAL_FS_SIZE)),
    {
        self.read_int(ID_TOTAL_FS_SIZE)
    }

    /// Timestamp base value (root field 12). Per-inode timestamps are
    /// expressed as offsets from this value.
    pub fn timestamp_base(&self) -> (r: Result<u64, Error>)
        ensures
            outcome(r, self@.root_int(ID_TIMESTAMP_BASE)),
    {
        self.read_int(ID_TIMESTAMP_BASE)
    }

    /// User-id table indexed by `inode.owner_index`.
    pub fn uids(&self) -> (r: Result<Vec<u32>, Error>)
        ensures
            outcome(r, self@.u32_list(ID_UIDS)),
    {
        self.read_u32_list(ID_UIDS)
    }

    /// Group-id table indexed by `inode.group_index`.
    pub fn gids(&self) -> (r: Result<Vec<u32>, Error>)
        ensures
            outcome(r, self@.u32_list(ID_GIDS)),
    {
        self.read_u32_list(ID_GIDS)
    }

    /// Inode-mode table indexed by `inode.mode_index`.
    pub fn modes(&self) -> (r: Result<Vec<u32>, Error>)
        ensures
            outcome(r, self@.u32_list(ID_MODES)),
    {
        self.read_u32_list(ID_MODES)
    }

    /// Chunk lookup table indexed by `inode - file_inode_offset`.
    ///
    /// This is the raw, possibly delta-packed table. Unpacking happens
    /// later in the read path once `fs_options.packed_chunk_table` is
    /// inspected.
    pub fn chunk_table_raw(&self) -> (r: Result<Vec<u32>, Error>)
        ensures
            outcome(r, self@.u32_list(ID_CHUNK_TABLE)),
    {
        self.read_u32_list(ID_CHUNK_TABLE)
    }

    /// Symlink target lookup table (indexed by
    /// `inode - symlink_inode_offset`).
    pub fn symlink_table(&self) -> (r: Result<Vec<u32>, Error>)
        ensures
            outcome(r, self@.u32_list(ID_SYMLINK_TABLE)),
    {
        self.read_u32_list(ID_SYMLINK_TABLE)
    }

    /// Decoded list of chunks (field 1).
    pub fn chunks(&self) -> (r: Result<Vec<Chunk>, Error>)
        ensures
            outcome(r, self@.struct_list::<Chunk>(ID_CHUNKS)),
    {
        self.decode_struct_list(ID_CHUNKS)
    }

    /// Decoded list of directory entries (field 19).
    pub fn dir_entries(&self) -> (r: Result<Vec<DirEntry>, Error>)
        ensures
            outcome(r, self@.struct_list::<DirEntry>(ID_DIR_ENTRIES)),
    {
        self.decode_struct_list(ID_DIR_ENTRIES)
    }

    /// Shared-files table (field 20), already unpacked.
    ///
    /// The on-disk form is run-length-packed when
    /// `fs_options.packed_shared_files_table` is set: each packed
    /// entry at index `i` is the number of additional repetitions of
    /// `i` (so a packed value of `k` expands to `k + 2` copies of `i`,
    /// where `2` is the minimum repetition count). Returns an empty
    /// vector when the field is absent or unset.
    pub fn shared_files_table(&self) -> (r: Result<Vec<u32>, Error>)
        ensures
            outcome(r, self@.shared_files_table()),
    {
        let raw: Vec<u32> = self.read_u32_list(ID_SHARED_FILES_TABLE)?;
        let options: FsOptions = self.fs_options()?;
        if !options.packed_shared_files_table {
            return Ok(raw);
        }
        proof {
            lemma_int_list_capped(self@, ID_SHARED_FILES_TABLE, DEFAULT_LIST_CAP);
        }
        let mut out: Vec<u32> = Vec::new();
        let mut i: usize = 0;
        while i < raw.len()
            invariant
                i <= raw@.len() <= DEFAULT_LIST_CAP,
                self@.u32_list(ID_SHARED_FILES_TABLE) == Ok::<Seq<u32>, ErrorView>(raw@),
                self@.fs_options() == Ok::<FsOptions, ErrorView>(options),
                options.packed_shared_files_table,
                first_long_run(raw@.take(i as int)) is None,
                out@ == unpack_runs(raw@.take(i as int)),
            decreases raw@.len() - i,
        {
            proof {
                assert(raw@.take(i + 1).drop_last() == raw@.take(i as int));
            }
            let delta: u32 = raw[i];
            if delta as u64 + 2 > usize::MAX as u64 {
                proof {
                    lemma_first_long_run_stays(raw@, i + 1);
                }
                return Err(out_of_range("shared_files_table run length", delta as u64));
            }
            let count: usize = delta as usize + 2;
            let ghost before = out@;
            let ghost run = Seq::new(count as nat, |k: int| i as u32);
            let mut k: usize = 0;
            while k < count
                invariant
                    k <= count,
                    i <= DEFAULT_LIST_CAP,
                    run == Seq::new(count as nat, |k: int| i as u32),
                    out@ == before + run.take(k as int),
                decreases count - k,
            {
                out.push(i as u32);
                proof {
                    assert(run.take(k + 1) == run.take(k as int).push(run[k as int]));
                }
                k = k + 1;
            }
            proof {
                assert(run.take(count as int) == run);
                assert(run =~= Seq::new(
                    (raw@.take(i + 1).last() + 2) as nat,
                    |k: int| (raw@.take(i + 1).len() - 1) as u32,
                ));
            }
            i = i + 1;
        }
        assert(raw@.take(i as int) == raw@);
        Ok(out)
    }

    /// Oversized hole lengths (field 35). Used when a hole chunk
    /// carries the sentinel offset.
    pub fn large_hole_size(&self) -> (r: Result<Vec<u64>, Error>)
        ensures
            outcome(r, self@.int_list(ID_LARGE_HOLE_SIZE, DEFAULT_LIST_CAP)),
    {
        self.read_int_list(ID_LARGE_HOLE_SIZE, DEFAULT_LIST_CAP)
    }

    /// Filesystem options struct (field 18). Returns the default
    /// `FsOptions` when the schema lacks the field or the optional is
    /// unset.
    pub fn fs_options(&self) -> (r: Result<FsOptions, Error>)
        ensures
            outcome(r, self@.fs_options()),
    {
        let (layout, pos): (&Layout, Pos) = match self.resolve_list(ID_OPTIONS)? {
            Some(found) => found,
            None => {
                return Ok(FsOptions::default());
            },
        };
        Ok(
            FsOptions {
                mtime_only: self.read_struct_bool(pos, layout, 1)?,
                time_resolution_sec: self.read_struct_optional_u32(pos, layout, 2)?,
                packed_chunk_table: self.read_struct_bool(pos, layout, 3)?,
                packed_directories: self.read_struct_bool(pos, layout, 4)?,
                packed_shared_files_table: self.read_struct_bool(pos, layout, 5)?,
                subsecond_resolution_nsec_multiplier: self.read_struct_optional_u32(
                    pos,
                    layout,
                    6,
                )?,
                has_btime: self.read_struct_bool(pos, layout, 7)?,
                inodes_have_nlink: self.read_struct_bool(pos, layout, 8)?,
            },
        )
    }

    /// Features set declared by the writer (field 27). Each element is
    /// a short identifier such as `"sparsefiles"`. Returns an empty
    /// vector when the optional set is absent or unset.
    ///
    /// A `set<string>` lives in a range whose elements are themselves
    /// string layouts, each with a distance relative to its own element
    /// position.
    pub fn features(&self) -> (r: Result<Vec<String>, Error>)
        ensures
            texts_outcome(r, self@.text_list(ID_FEATURES, "features"@)),
    {
        self.read_optional_string_list(ID_FEATURES, "features")
    }

    /// Block category names (field 28). Indexed by the values in
    /// [`Metadata::block_categories`].
    pub fn category_names(&self) -> (r: Result<Vec<String>, Error>)
        ensures
            texts_outcome(r, self@.text_list(ID_CATEGORY_NAMES, "category_names"@)),
    {
        self.read_optional_string_list(ID_CATEGORY_NAMES, "category_names")
    }

    /// Per-block category (field 29). The index is the block number and
    /// the value indexes [`Metadata::category_names`].
    pub fn block_categories(&self) -> (r: Result<Vec<u32>, Error>)
        ensures
            outcome(r, self@.block_categories()),
    {
        let raw: Vec<u64> = self.read_int_list(ID_BLOCK_CATEGORIES, DEFAULT_LIST_CAP)?;
        narrow(raw, Narrow::Category)
    }

    /// Decode an optional root field holding a list or set of strings.
    ///
    /// Each element is itself a string layout with a distance relative
    /// to its own element position, which is what distinguishes this
    /// from a plain integral list.
    fn read_optional_string_list(&self, id: i16, field: &'static str) -> (r: Result<
        Vec<String>,
        Error,
    >)
        ensures
            texts_outcome(r, self@.text_list(id, field@)),
    {
        let ghost want = self@.text_list(id, field@);
        let mut out: Vec<String> = Vec::new();
        assert(texts(out@) =~= Seq::<Seq<char>>::empty());
        let (list_layout, list_pos): (&Layout, Pos) = match self.resolve_list(id)? {
            Some(found) => found,
            None => {
                return Ok(out);
            },
        };
        let item_layout_id: i16 = match LayoutKind::of(list_layout, self.schema())? {
            LayoutKind::Array { item_layout_id } => item_layout_id,
            _ => {
                return Err(
                    decode(Text::of(field).str(" (id ").signed(id as i64).str(") is not a range")),
                );
            },
        };
        let range: RangeView = self.frozen.read_range(list_pos, list_layout)?;
        if range.count > DEFAULT_LIST_CAP {
            return Err(
                Error::CapExceeded { field, cap: DEFAULT_LIST_CAP, value: range.count },
            );
        }
        let item_layout: &Layout = self.schema().layout(item_layout_id)?;
        let ghost get = text_at(self@.frozen, range, item_layout@, field@);
        let mut i: u64 = 0;
        while i < range.count
            invariant
                i <= range.count,
                get == text_at(self@.frozen, range, item_layout@, field@),
                want == self@.text_list(id, field@),
                want == collect_from(range.count as nat, i as nat, texts(out@), get),
            decreases range.count - i,
        {
            let pos: Pos = self.frozen.element_pos(range, i)?;
            let bytes: &[u8] = self.frozen.read_string_bytes(pos, item_layout)?;
            match to_text(bytes) {
                Some(text) => {
                    let ghost before = out@;
                    let ghost t = text@;
                    out.push(text);
                    assert(texts(out@) =~= texts(before).push(t));
                },
                None => {
                    return Err(decode(Text::of("non-utf8 string in ").str(field)));
                },
            }
            i = i + 1;
        }
        Ok(out)
    }

    /// Names table, FSST-decompressed if needed.
    ///
    /// Resolves `compact_names` (field 24) first; falls back to the
    /// plain `list<string>` at field 10 when `compact_names` is unset.
    pub fn names(&self) -> (r: Result<Vec<Vec<u8>>, Error>)
        ensures
            strings_outcome(r, self@.strings(ID_COMPACT_NAMES, ID_NAMES)),
    {
        if let Some(table) = self.read_string_table(ID_COMPACT_NAMES)? {
            return Ok(table);
        }
        self.read_plain_string_list(ID_NAMES)
    }

    /// Symlink-targets table, FSST-decompressed if needed.
    pub fn symlinks(&self) -> (r: Result<Vec<Vec<u8>>, Error>)
        ensures
            strings_outcome(r, self@.strings(ID_COMPACT_SYMLINKS, ID_SYMLINKS)),
    {
        if let Some(table) = self.read_string_table(ID_COMPACT_SYMLINKS)? {
            return Ok(table);
        }
        self.read_plain_string_list(ID_SYMLINKS)
    }

    /// Decoded list of inodes (field 3).
    pub fn inodes(&self) -> (r: Result<Vec<InodeData>, Error>)
        ensures
            outcome(r, self@.struct_list::<InodeData>(ID_INODES)),
    {
        self.decode_struct_list(ID_INODES)
    }

    /// Decoded devices table (field 17). Each entry is an encoded
    /// `(major << 32) | minor` device number, in inode order
    /// starting at `inode_offsets.device_offset`. Returns an empty
    /// vector when the field is absent.
    pub fn devices(&self) -> (r: Result<Vec<u64>, Error>)
        ensures
            outcome(r, self@.int_list(ID_DEVICES, DEFAULT_LIST_CAP)),
    {
        self.read_int_list(ID_DEVICES, DEFAULT_LIST_CAP)
    }

    /// Decoded list of directories (field 2).
    ///
    /// The values are returned exactly as stored. When
    /// `fs_options.packed_directories` is set, the consumer must
    /// inclusive-prefix-sum the `first_entry` column to recover real
    /// indices.
    pub fn directories(&self) -> (r: Result<Vec<Directory>, Error>)
        ensures
            outcome(r, self@.struct_list::<Directory>(ID_DIRECTORIES)),
    {
        self.decode_struct_list(ID_DIRECTORIES)
    }

    /// Optional preferred path separator code point. Returns `None`
    /// when the writer did not set the field.
    pub fn preferred_path_separator(&self) -> (r: Result<Option<u32>, Error>)
        ensures
            outcome(
                r,
                narrowed_option(
                    self@.optional_int(ID_PREFERRED_PATH_SEPARATOR),
                    "preferred_path_separator"@,
                ),
            ),
    {
        match self.read_optional_int(ID_PREFERRED_PATH_SEPARATOR)? {
            None => Ok(None),
            Some(v) => if v > u32::MAX as u64 {
                Err(out_of_range("preferred_path_separator", v))
            } else {
                Ok(Some(v as u32))
            },
        }
    }

    /// Optional total allocated filesystem size (field 36).
    pub fn total_allocated_fs_size(&self) -> (r: Result<Option<u64>, Error>)
        ensures
            outcome(r, self@.optional_int(ID_TOTAL_ALLOCATED_FS_SIZE)),
    {
        self.read_optional_int(ID_TOTAL_ALLOCATED_FS_SIZE)
    }

    /// Optional hole block index (field 34). Present whenever the
    /// image stores sparse holes.
    pub fn hole_block_index(&self) -> (r: Result<Option<u32>, Error>)
        ensures
            outcome(
                r,
                narrowed_option(self@.optional_int(ID_HOLE_BLOCK_INDEX), "hole_block_index"@),
            ),
    {
        match self.read_optional_int(ID_HOLE_BLOCK_INDEX)? {
            None => Ok(None),
            Some(v) => if v > u32::MAX as u64 {
                Err(out_of_range("hole_block_index", v))
            } else {
                Ok(Some(v as u32))
            },
        }
    }

    /// Read a root integral field. Errors if the field is absent.
    fn read_int(&self, id: i16) -> (r: Result<u64, Error>)
        ensures
            outcome(r, self@.root_int(id)),
    {
        match self.field(id) {
            Some(_) => self.frozen.int_or_zero(Pos::root(), self.root_layout, id),
            None => Err(missing_field(id)),
        }
    }

    /// Read a root `Optional<integral>` field, returning `None` when
    /// absent or unset.
    fn read_optional_int(&self, id: i16) -> (r: Result<Option<u64>, Error>)
        ensures
            outcome(r, self@.optional_int(id)),
    {
        let view: FieldView = match self.field(id) {
            Some(view) => view,
            None => {
                return Ok(None);
            },
        };
        let layout: &Layout = self.schema().layout(view.field.layout_id)?;
        let opt: OptionalView = self.frozen.read_optional(view.pos, layout)?;
        if !opt.present {
            return Ok(None);
        }
        let value_layout_id: i16 = match opt.value_layout_id {
            Some(id) => id,
            None => {
                return Ok(Some(0));
            },
        };
        let value_layout: &Layout = self.schema().layout(value_layout_id)?;
        let v: u64 = self.frozen.read_integral(opt.value_pos, value_layout.bits as u32)?;
        Ok(Some(v))
    }

    /// Read a root `list<UInt32>` field with the default list cap.
    fn read_u32_list(&self, id: i16) -> (r: Result<Vec<u32>, Error>)
        ensures
            outcome(r, self@.u32_list(id)),
    {
        let values: Vec<u64> = self.read_int_list(id, DEFAULT_LIST_CAP)?;
        narrow(values, Narrow::Element(id))
    }

    /// Decode a root `list<struct>` field. Accepts both bare lists and
    /// `Optional<list<...>>` wrappers.
    fn decode_struct_list<T: FrozenStruct>(&self, id: i16) -> (r: Result<Vec<T>, Error>)
        ensures
            outcome(r, self@.struct_list::<T>(id)),
    {
        let ghost want = self@.struct_list::<T>(id);
        let mut out: Vec<T> = Vec::new();
        let (list_layout, list_pos): (&Layout, Pos) = match self.resolve_list(id)? {
            Some(found) => found,
            None => {
                return Ok(out);
            },
        };
        let kind: LayoutKind = LayoutKind::of(list_layout, self.schema())?;
        let item_layout_id: i16 = match kind {
            LayoutKind::Array { item_layout_id } => item_layout_id,
            _ => {
                let shown: String = kind.describe();
                return Err(
                    decode(
                        Text::of("field ").signed(id as i64).str(" is not an array (kind=").str(
                            shown.as_str(),
                        ).str(")"),
                    ),
                );
            },
        };
        let range: RangeView = self.frozen.read_range(list_pos, list_layout)?;
        if range.count > DEFAULT_LIST_CAP {
            return Err(
                Error::CapExceeded {
                    field: "list-count",
                    cap: DEFAULT_LIST_CAP,
                    value: range.count,
                },
            );
        }
        let item_layout: &Layout = self.schema().layout(item_layout_id)?;
        let ghost get = struct_at::<T>(self@.frozen, range, item_layout@);
        let mut i: u64 = 0;
        while i < range.count
            invariant
                i <= range.count,
                get == struct_at::<T>(self@.frozen, range, item_layout@),
                want == self@.struct_list::<T>(id),
                want == collect_from(range.count as nat, i as nat, out@, get),
            decreases range.count - i,
        {
            let pos: Pos = self.frozen.element_pos(range, i)?;
            let v: T = T::read(&self.frozen, pos, item_layout)?;
            out.push(v);
            i = i + 1;
        }
        Ok(out)
    }

    /// Locate the layout and position for a root field, unwrapping
    /// an `Optional<...>` wrapper if present. Returns `None` when
    /// the field is absent in the schema or the optional is unset.
    fn resolve_list(&self, id: i16) -> (r: Result<Option<(&'a Layout, Pos)>, Error>)
        ensures
            match r {
                Ok(Some((layout, pos))) => self@.resolve(id) == Ok::<
                    Option<(LayoutView, Pos)>,
                    ErrorView,
                >(Some((layout@, pos))),
                Ok(None) => self@.resolve(id) == Ok::<Option<(LayoutView, Pos)>, ErrorView>(None),
                Err(e) => self@.resolve(id) == Err::<Option<(LayoutView, Pos)>, ErrorView>(e@),
            },
    {
        let view: FieldView = match self.field(id) {
            Some(view) => view,
            None => {
                return Ok(None);
            },
        };
        let outer: &'a Layout = self.schema().layout(view.field.layout_id)?;
        match LayoutKind::of(outer, self.schema())? {
            LayoutKind::Optional { value_layout_id } => {
                let opt: OptionalView = self.frozen.read_optional(view.pos, outer)?;
                if !opt.present {
                    return Ok(None);
                }
                match value_layout_id {
                    Some(vid) => {
                        let inner: &'a Layout = self.schema().layout(vid)?;
                        Ok(Some((inner, opt.value_pos)))
                    },
                    None => Ok(None),
                }
            },
            _ => Ok(Some((outer, view.pos))),
        }
    }

    /// Number of elements of a root table and bits of one element, where
    /// the table is an array that has any.
    pub fn table_size(&self, id: i16) -> (r: Option<(u64, u16)>)
        ensures
            r == self@.table_size(id),
    {
        let (layout, pos): (&'a Layout, Pos) = match self.resolve_list(id) {
            Ok(Some(found)) => found,
            _ => {
                return None;
            },
        };
        let item_layout_id: i16 = match LayoutKind::of(layout, self.schema()) {
            Ok(LayoutKind::Array { item_layout_id }) => item_layout_id,
            _ => {
                return None;
            },
        };
        let range: RangeView = match self.frozen.read_range(pos, layout) {
            Ok(range) => range,
            Err(_) => {
                return None;
            },
        };
        match self.schema().layout(item_layout_id) {
            Ok(item) => if range.count == 0 {
                None
            } else if item.bits == 0 {
                Some((range.count, 1))
            } else {
                Some((range.count, item.bits))
            },
            Err(_) => None,
        }
    }

    /// Decode an `Optional<string_table>` root field. Returns `None`
    /// when the field is absent or unset.
    fn read_string_table(&self, id: i16) -> (r: Result<Option<Vec<Vec<u8>>>, Error>)
        ensures
            match r {
                Ok(Some(v)) => self@.string_table(id) == Ok::<Option<Seq<Seq<u8>>>, ErrorView>(
                    Some(byte_strings(v@)),
                ),
                Ok(None) => self@.string_table(id) == Ok::<Option<Seq<Seq<u8>>>, ErrorView>(None),
                Err(e) => self@.string_table(id) == Err::<Option<Seq<Seq<u8>>>, ErrorView>(e@),
            },
    {
        let view: FieldView = match self.field(id) {
            Some(view) => view,
            None => {
                return Ok(None);
            },
        };
        let outer: &'a Layout = self.schema().layout(view.field.layout_id)?;
        let value_layout_id: Option<i16> = match LayoutKind::of(outer, self.schema())? {
            LayoutKind::Optional { value_layout_id } => value_layout_id,
            _ => {
                return Err(
                    decode(
                        Text::of("field ").signed(id as i64).str(
                            " is not Optional<string_table>",
                        ),
                    ),
                );
            },
        };
        let opt: OptionalView = self.frozen.read_optional(view.pos, outer)?;
        if !opt.present {
            return Ok(None);
        }
        let table_layout_id: i16 = match value_layout_id {
            Some(vid) => vid,
            None => {
                let none: Vec<Vec<u8>> = Vec::new();
                assert(byte_strings(none@) =~= Seq::<Seq<u8>>::empty());
                return Ok(Some(none));
            },
        };
        let st_layout: &'a Layout = self.schema().layout(table_layout_id)?;
        let st_pos: Pos = opt.value_pos;
        let buffer: &[u8] = self.read_struct_string(st_pos, st_layout, 1)?;
        let symtab: Option<&[u8]> = self.read_struct_optional_string(st_pos, st_layout, 2)?;
        let raw_index: Vec<u64> = self.read_struct_int_list(
            st_pos,
            st_layout,
            3,
            DEFAULT_LIST_CAP,
        )?;
        let packed: bool = self.read_struct_bool(st_pos, st_layout, 4)?;
        let index: Vec<u32> = narrow(raw_index, Narrow::TableIndex)?;
        let strings: Vec<Vec<u8>> = decode_string_table(
            buffer,
            symtab,
            index.as_slice(),
            packed,
        )?;
        Ok(Some(strings))
    }

    /// Decode a root `list<string>` field by reading each element's
    /// string bytes via the relative-distance contract.
    fn read_plain_string_list(&self, id: i16) -> (r: Result<Vec<Vec<u8>>, Error>)
        ensures
            strings_outcome(r, self@.string_list(id)),
    {
        let ghost want = self@.string_list(id);
        let mut out: Vec<Vec<u8>> = Vec::new();
        assert(byte_strings(out@) =~= Seq::<Seq<u8>>::empty());
        let (list_layout, list_pos): (&Layout, Pos) = match self.resolve_list(id)? {
            Some(found) => found,
            None => {
                return Ok(out);
            },
        };
        let item_layout_id: i16 = match LayoutKind::of(list_layout, self.schema())? {
            LayoutKind::Array { item_layout_id } => item_layout_id,
            _ => {
                return Err(
                    decode(
                        Text::of("field ").signed(id as i64).str(" is not an array of strings"),
                    ),
                );
            },
        };
        let range: RangeView = self.frozen.read_range(list_pos, list_layout)?;
        if range.count > DEFAULT_LIST_CAP {
            return Err(
                Error::CapExceeded {
                    field: "list-count",
                    cap: DEFAULT_LIST_CAP,
                    value: range.count,
                },
            );
        }
        let item_layout: &Layout = self.schema().layout(item_layout_id)?;
        let ghost get = string_at(self@.frozen, range, item_layout@);
        let mut i: u64 = 0;
        while i < range.count
            invariant
                i <= range.count,
                get == string_at(self@.frozen, range, item_layout@),
                want == self@.string_list(id),
                want == collect_from(range.count as nat, i as nat, byte_strings(out@), get),
            decreases range.count - i,
        {
            let pos: Pos = self.frozen.element_pos(range, i)?;
            let bytes: &[u8] = self.frozen.read_string_bytes(pos, item_layout)?;
            let ghost before = out@;
            out.push(vstd::slice::slice_to_vec(bytes));
            assert(byte_strings(out@) =~= byte_strings(before).push(bytes@));
            i = i + 1;
        }
        Ok(out)
    }

    /// Read a struct's string-typed field as raw bytes. Returns an
    /// empty slice when the field is absent.
    fn read_struct_string(&self, struct_pos: Pos, struct_layout: &Layout, field_id: i16) -> (r:
        Result<&'a [u8], Error>)
        ensures
            outcome(r, string_field(self@.frozen, struct_pos, struct_layout@, field_id)),
    {
        match struct_layout.field(field_id) {
            None => {
                let whole: &'a [u8] = self.frozen.buf().bytes();
                let none: &'a [u8] = vstd::slice::slice_subrange(whole, 0, 0);
                assert(none@ =~= Seq::<u8>::empty());
                Ok(none)
            },
            Some(field) => {
                let layout: &Layout = self.schema().layout(field.layout_id)?;
                self.frozen.read_string_bytes(struct_pos.child(field), layout)
            },
        }
    }

    /// Read a struct's `Optional<string>` field. Returns `None` when
    /// absent or unset.
    fn read_struct_optional_string(
        &self,
        struct_pos: Pos,
        struct_layout: &Layout,
        field_id: i16,
    ) -> (r: Result<Option<&'a [u8]>, Error>)
        ensures
            ({
                let want = optional_string_field(
                    self@.frozen,
                    struct_pos,
                    struct_layout@,
                    field_id,
                );
                match r {
                    Ok(v) => want == Ok::<Option<Seq<u8>>, ErrorView>(optional_bytes(v)),
                    Err(e) => want == Err::<Option<Seq<u8>>, ErrorView>(e@),
                }
            }),
    {
        let field: &Field = match struct_layout.field(field_id) {
            Some(field) => field,
            None => {
                return Ok(None);
            },
        };
        let outer: &Layout = self.schema().layout(field.layout_id)?;
        let pos: Pos = struct_pos.child(field);
        match LayoutKind::of(outer, self.schema())? {
            LayoutKind::Optional { value_layout_id } => {
                let opt: OptionalView = self.frozen.read_optional(pos, outer)?;
                if !opt.present {
                    return Ok(None);
                }
                match value_layout_id {
                    Some(vid) => {
                        let value_layout: &Layout = self.schema().layout(vid)?;
                        let s: &'a [u8] = self.frozen.read_string_bytes(
                            opt.value_pos,
                            value_layout,
                        )?;
                        Ok(Some(s))
                    },
                    None => {
                        let whole: &'a [u8] = self.frozen.buf().bytes();
                        let none: &'a [u8] = vstd::slice::slice_subrange(whole, 0, 0);
                        assert(none@ =~= Seq::<u8>::empty());
                        Ok(Some(none))
                    },
                }
            },
            _ => {
                // Some schemas inline the string without an Optional
                // wrapper; treat that as always-present.
                let s: &'a [u8] = self.frozen.read_string_bytes(pos, outer)?;
                Ok(Some(s))
            },
        }
    }

    /// Read a struct field that is itself a `list<integral>`.
    fn read_struct_int_list(
        &self,
        struct_pos: Pos,
        struct_layout: &Layout,
        field_id: i16,
        cap: u64,
    ) -> (r: Result<Vec<u64>, Error>)
        ensures
            outcome(r, int_list_field(self@.frozen, struct_pos, struct_layout@, field_id, cap)),
    {
        let field: &Field = match struct_layout.field(field_id) {
            Some(field) => field,
            None => {
                return Ok(Vec::new());
            },
        };
        let list_layout: &Layout = self.schema().layout(field.layout_id)?;
        let kind: LayoutKind = LayoutKind::of(list_layout, self.schema())?;
        let range: RangeView = self.frozen.read_range(struct_pos.child(field), list_layout)?;
        if range.count > cap {
            return Err(Error::CapExceeded { field: "list-count", cap, value: range.count });
        }
        match kind {
            LayoutKind::Array { item_layout_id } => {
                let item_layout: &Layout = self.schema().layout(item_layout_id)?;
                self.read_ints(range, item_layout.bits as u32)
            },
            LayoutKind::String => self.read_ints(range, 0),
            _ => {
                let shown: String = kind.describe();
                Err(
                    decode(
                        Text::of("struct field ").signed(field_id as i64).str(
                            " is not a list (kind=",
                        ).str(shown.as_str()).str(")"),
                    ),
                )
            },
        }
    }

    /// Read the integers of a resolved range. Items with `bits == 0`
    /// decode as zero (Frozen2 elides storage when every value in the
    /// list is the type default).
    fn read_ints(&self, range: RangeView, bits: u32) -> (r: Result<Vec<u64>, Error>)
        ensures
            outcome(r, range_ints(self@.frozen, range, bits)),
    {
        let mut out: Vec<u64> = Vec::new();
        let mut i: u64 = 0;
        if bits == 0 {
            while i < range.count
                invariant
                    i <= range.count,
                    out@ == Seq::new(i as nat, |k: int| 0u64),
                decreases range.count - i,
            {
                out.push(0);
                i = i + 1;
                assert(out@ =~= Seq::new(i as nat, |k: int| 0u64));
            }
            return Ok(out);
        }
        let ghost get = int_at(self@.frozen, range, bits);
        while i < range.count
            invariant
                i <= range.count,
                bits != 0,
                get == int_at(self@.frozen, range, bits),
                range_ints(self@.frozen, range, bits) == collect_from(
                    range.count as nat,
                    i as nat,
                    out@,
                    get,
                ),
            decreases range.count - i,
        {
            let pos: Pos = self.frozen.element_pos(range, i)?;
            let v: u64 = self.frozen.read_integral(pos, bits)?;
            out.push(v);
            i = i + 1;
        }
        Ok(out)
    }

    /// Read a struct's `Optional<UInt32>` field, returning `None` when
    /// absent or unset.
    fn read_struct_optional_u32(
        &self,
        struct_pos: Pos,
        struct_layout: &Layout,
        field_id: i16,
    ) -> (r: Result<Option<u32>, Error>)
        ensures
            outcome(r, optional_u32_field(self@.frozen, struct_pos, struct_layout@, field_id)),
    {
        let field: &Field = match struct_layout.field(field_id) {
            Some(field) => field,
            None => {
                return Ok(None);
            },
        };
        let outer: &Layout = self.schema().layout(field.layout_id)?;
        let pos: Pos = struct_pos.child(field);
        match LayoutKind::of(outer, self.schema())? {
            LayoutKind::Optional { value_layout_id } => {
                let opt: OptionalView = self.frozen.read_optional(pos, outer)?;
                if !opt.present {
                    return Ok(None);
                }
                let vid: i16 = match value_layout_id {
                    Some(vid) => vid,
                    None => {
                        return Ok(Some(0));
                    },
                };
                let value_layout: &Layout = self.schema().layout(vid)?;
                let v: u64 = self.frozen.read_integral(opt.value_pos, value_layout.bits as u32)?;
                if v > u32::MAX as u64 {
                    return Err(
                        decode(
                            Text::of("optional u32 field ").signed(field_id as i64).str(
                                " value ",
                            ).num(v).str(" overflows"),
                        ),
                    );
                }
                Ok(Some(v as u32))
            },
            _ => {
                let v: u64 = self.frozen.read_integral(pos, outer.bits as u32)?;
                if v > u32::MAX as u64 {
                    return Err(
                        decode(
                            Text::of("u32 field ").signed(field_id as i64).str(" value ").num(
                                v,
                            ).str(" overflows"),
                        ),
                    );
                }
                Ok(Some(v as u32))
            },
        }
    }

    /// Read a struct's boolean field. Missing fields decode as false.
    fn read_struct_bool(&self, struct_pos: Pos, struct_layout: &Layout, field_id: i16) -> (r:
        Result<bool, Error>)
        ensures
            outcome(r, bool_field(self@.frozen, struct_pos, struct_layout@, field_id)),
    {
        let v: u64 = self.frozen.int_or_zero(struct_pos, struct_layout, field_id)?;
        Ok(v != 0)
    }

    /// Read a root `list<integral>` field with a cap. Accepts:
    /// - Bare lists and `Optional<list<...>>` wrappers.
    /// - `ArrayLayout`-encoded ranges with a per-element bit-packed
    ///   item layout. The item layout's bit width is authoritative.
    /// - `StringLayout`-style ranges where the writer elided field 3
    ///   (item) entirely. In that case every element is the default
    ///   value (zero).
    fn read_int_list(&self, id: i16, cap: u64) -> (r: Result<Vec<u64>, Error>)
        ensures
            outcome(r, self@.int_list(id, cap)),
    {
        let (list_layout, list_pos): (&Layout, Pos) = match self.resolve_list(id)? {
            Some(found) => found,
            None => {
                return Ok(Vec::new());
            },
        };
        let kind: LayoutKind = LayoutKind::of(list_layout, self.schema())?;
        let range: RangeView = self.frozen.read_range(list_pos, list_layout)?;
        if range.count > cap {
            return Err(Error::CapExceeded { field: "list-count", cap, value: range.count });
        }
        match kind {
            LayoutKind::Array { item_layout_id } => {
                let item_layout: &Layout = self.schema().layout(item_layout_id)?;
                if !map_is_empty(&item_layout.fields) {
                    return Err(
                        decode(
                            Text::of("field ").signed(id as i64).str(
                                " elements are not integral",
                            ),
                        ),
                    );
                }
                self.read_ints(range, item_layout.bits as u32)
            },
            LayoutKind::String => self.read_ints(range, 0),
            _ => {
                let shown: String = kind.describe();
                Err(
                    decode(
                        Text::of("field ").signed(id as i64).str(" is not a list (kind=").str(
                            shown.as_str(),
                        ).str(")"),
                    ),
                )
            },
        }
    }

    /// Lookup a root field by id.
    fn field(&self, id: i16) -> (r: Option<FieldView>)
        ensures
            match r {
                Some(v) => self@.root.field(id) == Some(v.field) && v.pos == origin().at(v.field),
                None => self@.root.field(id) is None,
            },
    {
        self.frozen.field(Pos::root(), self.root_layout, id)
    }
}

proof fn lemma_first_long_run_stays(raw: Seq<u32>, i: int)
    requires
        0 <= i <= raw.len(),
        first_long_run(raw.take(i)) is Some,
    ensures
        first_long_run(raw) == first_long_run(raw.take(i)),
    decreases raw.len() - i,
{
    if i == raw.len() {
        assert(raw.take(i) == raw);
    } else {
        assert(raw.take(i + 1).drop_last() == raw.take(i));
        lemma_first_long_run_stays(raw, i + 1);
    }
}

/// Each number in 32 bits.
fn narrow(values: Vec<u64>, which: Narrow) -> (r: Result<Vec<u32>, Error>)
    ensures
        outcome(r, narrowed(Ok(values@), which)),
{
    let mut out: Vec<u32> = Vec::new();
    let ghost get = narrow_at(values@, which);
    let mut i: usize = 0;
    while i < values.len()
        invariant
            i <= values@.len(),
            get == narrow_at(values@, which),
            narrowed(Ok(values@), which) == collect_from(values@.len(), i as nat, out@, get),
        decreases values@.len() - i,
    {
        let v: u64 = values[i];
        if v > u32::MAX as u64 {
            return Err(which.complain(v));
        }
        out.push(v as u32);
        i = i + 1;
    }
    Ok(out)
}

} // verus!
