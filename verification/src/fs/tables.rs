//! The decoded metadata tables that the filesystem works on.

use crate::collect::{collect, collect_from};
use crate::error::{Error, ErrorView, viewed};
use crate::fs::chunks::{corrupt, fs_error};
use crate::metadata::model::{
    Chunk, DEFAULT_LIST_CAP, DirEntry, Directory, FrozenStruct, FsOptions, ID_CATEGORY_NAMES,
    ID_CHUNKS, ID_CHUNK_TABLE, ID_COMPACT_NAMES, ID_COMPACT_SYMLINKS, ID_DEVICES, ID_DIRECTORIES,
    ID_DIR_ENTRIES, ID_FEATURES, ID_GIDS, ID_HOLE_BLOCK_INDEX, ID_INODES, ID_LARGE_HOLE_SIZE,
    ID_MODES, ID_NAMES, ID_PREFERRED_PATH_SEPARATOR, ID_SYMLINKS, ID_SYMLINK_TABLE,
    ID_TIMESTAMP_BASE, ID_TOTAL_ALLOCATED_FS_SIZE, ID_TOTAL_FS_SIZE, ID_UIDS, InodeData,
    narrowed_option,
};
use crate::metadata::root::{
    Metadata, MetadataView, lemma_struct_list_capped, texts, texts_outcome,
};
use crate::metadata::string_table::byte_strings;
use crate::text::{Text, dec};
use vstd::prelude::*;

verus! {

/// Feature names this build implements.
///
/// A producer may record a feature set in the metadata so that a reader
/// which does not implement one of them refuses the image instead of
/// misreading it.
pub const SUPPORTED_FEATURES: [&'static str; 1] = ["sparsefiles"];

/// Whether this build implements a feature.
pub open spec fn is_supported(name: Seq<char>) -> bool {
    exists|k: int|
        0 <= k < SUPPORTED_FEATURES@.len() && (#[trigger] SUPPORTED_FEATURES@[k])@ == name
}

/// The one feature that this build implements is sparse files.
pub proof fn lemma_supported_features(name: Seq<char>)
    ensures
        is_supported(name) <==> name == "sparsefiles"@,
{
    assert(SUPPORTED_FEATURES@.len() == 1);
    assert(SUPPORTED_FEATURES@[0]@ == "sparsefiles"@);
}

/// What checking the features from index `i` on answers: the first one
/// that is not implemented, by name.
pub open spec fn features_from(features: Seq<Seq<char>>, i: nat) -> Result<(), ErrorView>
    decreases features.len() - i,
{
    if i >= features.len() {
        Ok(())
    } else if is_supported(features[i as int]) {
        features_from(features, i + 1)
    } else {
        Err(ErrorView::UnsupportedFeature { name: features[i as int] })
    }
}

/// The features are accepted exactly when this build implements all of
/// them.
pub proof fn lemma_features_all_supported(features: Seq<Seq<char>>, i: nat)
    ensures
        features_from(features, i) is Ok <==> forall|j: int|
            i <= j < features.len() ==> is_supported(#[trigger] features[j]),
    decreases features.len() - i,
{
    if i < features.len() {
        lemma_features_all_supported(features, i + 1);
        if !is_supported(features[i as int]) {
            assert(!(forall|j: int|
                i <= j < features.len() ==> is_supported(#[trigger] features[j])));
        }
    }
}

fn supported(name: &String) -> (r: bool)
    ensures
        r == is_supported(name@),
{
    let known: [&'static str; 1] = SUPPORTED_FEATURES;
    let mut k: usize = 0;
    while k < known.len()
        invariant
            known@ == SUPPORTED_FEATURES@,
            k <= known@.len(),
            forall|j: int| 0 <= j < k ==> (#[trigger] SUPPORTED_FEATURES@[j])@ != name@,
        decreases known@.len() - k,
    {
        let one: String = known[k].to_owned();
        if name.eq(&one) {
            assert(SUPPORTED_FEATURES@[k as int]@ == name@);
            return true;
        }
        k = k + 1;
    }
    false
}

/// Reject any declared feature this build does not implement.
pub fn check_features(features: &[String]) -> (r: Result<(), Error>)
    ensures
        viewed(r) == features_from(texts(features@), 0),
{
    let mut i: usize = 0;
    while i < features.len()
        invariant
            i <= features@.len(),
            features_from(texts(features@), 0) == features_from(texts(features@), i as nat),
        decreases features@.len() - i,
    {
        if !supported(&features[i]) {
            return Err(Error::UnsupportedFeature { name: features[i].clone() });
        }
        i = i + 1;
    }
    Ok(())
}

/// The tables of an image.
#[verifier::ext_equal]
pub struct TablesView {
    pub block_size: u32,
    pub options: FsOptions,
    pub timestamp_base: u64,
    pub modes: Seq<u32>,
    pub uids: Seq<u32>,
    pub gids: Seq<u32>,
    pub inodes: Seq<InodeData>,
    pub directories: Seq<Directory>,
    pub dir_entries: Seq<DirEntry>,
    pub chunks: Seq<Chunk>,
    pub chunk_table: Seq<u32>,
    pub symlink_table: Seq<u32>,
    pub shared_files: Seq<u32>,
    pub large_hole_size: Seq<u64>,
    pub hole_block_index: Option<u32>,
    pub names: Seq<Seq<u8>>,
    pub symlinks: Seq<Seq<u8>>,
    pub devices: Seq<u64>,
    pub block_category_names: Seq<Seq<char>>,
    pub features: Seq<Seq<char>>,
    pub preferred_path_separator: Option<u32>,
    pub total_fs_size: u64,
    pub total_allocated_fs_size: Option<u64>,
}

/// Every metadata table needed for path traversal and chunk resolution.
#[derive(Debug)]
pub struct Tables {
    /// Size of a block in bytes.
    pub block_size: u32,
    /// Packing flags and time resolution.
    pub options: FsOptions,
    /// Base of every recorded time.
    pub timestamp_base: u64,
    /// Distinct modes.
    pub modes: Vec<u32>,
    /// Distinct user ids.
    pub uids: Vec<u32>,
    /// Distinct group ids.
    pub gids: Vec<u32>,
    /// Inode records.
    pub inodes: Vec<InodeData>,
    /// Directory records.
    pub directories: Vec<Directory>,
    /// Directory entries, grouped by directory.
    pub dir_entries: Vec<DirEntry>,
    /// Chunks, grouped by file.
    pub chunks: Vec<Chunk>,
    /// Boundaries of the groups of chunks.
    pub chunk_table: Vec<u32>,
    /// Target index of each symlink.
    pub symlink_table: Vec<u32>,
    /// Group of each shared file.
    pub shared_files: Vec<u32>,
    /// Lengths of holes too large for a chunk.
    pub large_hole_size: Vec<u64>,
    /// Block index that marks a chunk as a hole.
    pub hole_block_index: Option<u32>,
    /// Entry names.
    pub names: Vec<Vec<u8>>,
    /// Symlink targets.
    pub symlinks: Vec<Vec<u8>>,
    /// Device numbers, `(major << 32) | minor` each, indexed by
    /// `inode - device_offset`. Empty when the image has no device nodes.
    pub devices: Vec<u64>,
    /// Category name per block index, empty when the image records no
    /// categorisation.
    pub block_category_names: Vec<String>,
    /// Declared features.
    pub features: Vec<String>,
    /// Path separator the source filesystem preferred.
    pub preferred_path_separator: Option<u32>,
    /// Total size of the original tree.
    pub total_fs_size: u64,
    /// Total allocated size of the original tree.
    pub total_allocated_fs_size: Option<u64>,
}

impl View for Tables {
    type V = TablesView;

    open spec fn view(&self) -> TablesView {
        TablesView {
            block_size: self.block_size,
            options: self.options,
            timestamp_base: self.timestamp_base,
            modes: self.modes@,
            uids: self.uids@,
            gids: self.gids@,
            inodes: self.inodes@,
            directories: self.directories@,
            dir_entries: self.dir_entries@,
            chunks: self.chunks@,
            chunk_table: self.chunk_table@,
            symlink_table: self.symlink_table@,
            shared_files: self.shared_files@,
            large_hole_size: self.large_hole_size@,
            hole_block_index: self.hole_block_index,
            names: byte_strings(self.names@),
            symlinks: byte_strings(self.symlinks@),
            devices: self.devices@,
            block_category_names: texts(self.block_category_names@),
            features: texts(self.features@),
            preferred_path_separator: self.preferred_path_separator,
            total_fs_size: self.total_fs_size,
            total_allocated_fs_size: self.total_allocated_fs_size,
        }
    }
}

/// The category name of block `i`.
pub open spec fn category_at(names: Seq<Seq<char>>, categories: Seq<u32>) -> spec_fn(
    nat,
) -> Result<Seq<char>, ErrorView> {
    |i: nat|
        if categories[i as int] < names.len() {
            Ok(names[categories[i as int] as int])
        } else {
            Err(
                fs_error(
                    "category index "@ + dec(categories[i as int] as nat) + " out of range"@,
                ),
            )
        }
}

/// One category name per block; none when the image names no category.
pub open spec fn block_categories_of(m: MetadataView) -> Result<Seq<Seq<char>>, ErrorView> {
    match m.text_list(ID_CATEGORY_NAMES, "category_names"@) {
        Err(e) => Err(e),
        Ok(names) => if names.len() == 0 {
            Ok(Seq::empty())
        } else {
            match m.block_categories() {
                Err(e) => Err(e),
                Ok(categories) => collect(categories.len(), category_at(names, categories)),
            }
        },
    }
}

/// Resolve `block_categories` against `category_names` into one name
/// per block. Empty when the image records no categorisation.
pub fn resolve_block_categories(m: &Metadata<'_>) -> (r: Result<Vec<String>, Error>)
    ensures
        texts_outcome(r, block_categories_of(m@)),
{
    let names: Vec<String> = m.category_names()?;
    let mut out: Vec<String> = Vec::new();
    assert(texts(out@) =~= Seq::<Seq<char>>::empty());
    if names.len() == 0 {
        return Ok(out);
    }
    let categories: Vec<u32> = m.block_categories()?;
    let ghost get = category_at(texts(names@), categories@);
    let mut i: usize = 0;
    while i < categories.len()
        invariant
            i <= categories@.len(),
            get == category_at(texts(names@), categories@),
            block_categories_of(m@) == collect_from(
                categories@.len(),
                i as nat,
                texts(out@),
                get,
            ),
        decreases categories@.len() - i,
    {
        let index: u32 = categories[i];
        if index as usize >= names.len() {
            return Err(
                corrupt(Text::of("category index ").num(index as u64).str(" out of range")),
            );
        }
        let name: String = names[index as usize].clone();
        let ghost before = out@;
        let ghost t = name@;
        out.push(name);
        assert(texts(out@) =~= texts(before).push(t));
        i = i + 1;
    }
    Ok(out)
}

/// The error of a result.
pub open spec fn failure_of<T>(r: Result<T, ErrorView>) -> Option<ErrorView> {
    match r {
        Ok(_) => None,
        Err(e) => Some(e),
    }
}

/// The failure that comes first.
pub open spec fn earlier(a: Option<ErrorView>, b: Option<ErrorView>) -> Option<ErrorView> {
    match a {
        Some(e) => Some(e),
        None => b,
    }
}

/// The first failure of reading the tables, in the order they are read.
pub open spec fn tables_failure(m: MetadataView) -> Option<ErrorView> {
    let features = m.text_list(ID_FEATURES, "features"@);
    let e = failure_of(features);
    let e = earlier(e, failure_of(features_from(features->Ok_0, 0)));
    let e = earlier(e, failure_of(m.block_size()));
    let e = earlier(e, failure_of(m.fs_options()));
    let e = earlier(e, failure_of(m.root_int(ID_TIMESTAMP_BASE)));
    let e = earlier(e, failure_of(m.u32_list(ID_MODES)));
    let e = earlier(e, failure_of(m.u32_list(ID_UIDS)));
    let e = earlier(e, failure_of(m.u32_list(ID_GIDS)));
    let e = earlier(e, failure_of(m.struct_list::<InodeData>(ID_INODES)));
    let e = earlier(e, failure_of(m.struct_list::<Directory>(ID_DIRECTORIES)));
    let e = earlier(e, failure_of(m.struct_list::<DirEntry>(ID_DIR_ENTRIES)));
    let e = earlier(e, failure_of(m.struct_list::<Chunk>(ID_CHUNKS)));
    let e = earlier(e, failure_of(m.u32_list(ID_CHUNK_TABLE)));
    let e = earlier(e, failure_of(m.u32_list(ID_SYMLINK_TABLE)));
    let e = earlier(e, failure_of(m.shared_files_table()));
    let e = earlier(e, failure_of(m.int_list(ID_LARGE_HOLE_SIZE, DEFAULT_LIST_CAP)));
    let e = earlier(e, failure_of(hole_block_of(m)));
    let e = earlier(e, failure_of(m.strings(ID_COMPACT_NAMES, ID_NAMES)));
    let e = earlier(e, failure_of(m.strings(ID_COMPACT_SYMLINKS, ID_SYMLINKS)));
    let e = earlier(e, failure_of(m.int_list(ID_DEVICES, DEFAULT_LIST_CAP)));
    let e = earlier(e, failure_of(block_categories_of(m)));
    let e = earlier(e, failure_of(separator_of(m)));
    let e = earlier(e, failure_of(m.root_int(ID_TOTAL_FS_SIZE)));
    earlier(e, failure_of(m.optional_int(ID_TOTAL_ALLOCATED_FS_SIZE)))
}

/// The recorded hole block index.
pub open spec fn hole_block_of(m: MetadataView) -> Result<Option<u32>, ErrorView> {
    narrowed_option(m.optional_int(ID_HOLE_BLOCK_INDEX), "hole_block_index"@)
}

/// The recorded path separator.
pub open spec fn separator_of(m: MetadataView) -> Result<Option<u32>, ErrorView> {
    narrowed_option(m.optional_int(ID_PREFERRED_PATH_SEPARATOR), "preferred_path_separator"@)
}

/// The tables as the metadata records them.
pub open spec fn recorded_tables(m: MetadataView) -> Result<TablesView, ErrorView> {
    match tables_failure(m) {
        Some(e) => Err(e),
        None => Ok(
            TablesView {
                block_size: m.block_size()->Ok_0,
                options: m.fs_options()->Ok_0,
                timestamp_base: m.root_int(ID_TIMESTAMP_BASE)->Ok_0,
                modes: m.u32_list(ID_MODES)->Ok_0,
                uids: m.u32_list(ID_UIDS)->Ok_0,
                gids: m.u32_list(ID_GIDS)->Ok_0,
                inodes: m.struct_list::<InodeData>(ID_INODES)->Ok_0,
                directories: m.struct_list::<Directory>(ID_DIRECTORIES)->Ok_0,
                dir_entries: m.struct_list::<DirEntry>(ID_DIR_ENTRIES)->Ok_0,
                chunks: m.struct_list::<Chunk>(ID_CHUNKS)->Ok_0,
                chunk_table: m.u32_list(ID_CHUNK_TABLE)->Ok_0,
                symlink_table: m.u32_list(ID_SYMLINK_TABLE)->Ok_0,
                shared_files: m.shared_files_table()->Ok_0,
                large_hole_size: m.int_list(ID_LARGE_HOLE_SIZE, DEFAULT_LIST_CAP)->Ok_0,
                hole_block_index: hole_block_of(m)->Ok_0,
                names: m.strings(ID_COMPACT_NAMES, ID_NAMES)->Ok_0,
                symlinks: m.strings(ID_COMPACT_SYMLINKS, ID_SYMLINKS)->Ok_0,
                devices: m.int_list(ID_DEVICES, DEFAULT_LIST_CAP)->Ok_0,
                block_category_names: block_categories_of(m)->Ok_0,
                features: m.text_list(ID_FEATURES, "features"@)->Ok_0,
                preferred_path_separator: separator_of(m)->Ok_0,
                total_fs_size: m.root_int(ID_TOTAL_FS_SIZE)->Ok_0,
                total_allocated_fs_size: m.optional_int(ID_TOTAL_ALLOCATED_FS_SIZE)->Ok_0,
            },
        ),
    }
}

/// Every table is the one that the metadata records under its number.
pub proof fn lemma_tables_are_recorded(m: MetadataView)
    requires
        recorded_tables(m) is Ok,
    ensures
        ({
            let t = recorded_tables(m)->Ok_0;
            &&& m.struct_list::<Chunk>(1) == Ok::<Seq<Chunk>, ErrorView>(t.chunks)
            &&& m.struct_list::<Directory>(2) == Ok::<Seq<Directory>, ErrorView>(t.directories)
            &&& m.struct_list::<InodeData>(3) == Ok::<Seq<InodeData>, ErrorView>(t.inodes)
            &&& m.u32_list(4) == Ok::<Seq<u32>, ErrorView>(t.chunk_table)
            &&& m.u32_list(6) == Ok::<Seq<u32>, ErrorView>(t.symlink_table)
            &&& m.u32_list(7) == Ok::<Seq<u32>, ErrorView>(t.uids)
            &&& m.u32_list(8) == Ok::<Seq<u32>, ErrorView>(t.gids)
            &&& m.u32_list(9) == Ok::<Seq<u32>, ErrorView>(t.modes)
            &&& m.strings(24, 10) == Ok::<Seq<Seq<u8>>, ErrorView>(t.names)
            &&& m.strings(25, 11) == Ok::<Seq<Seq<u8>>, ErrorView>(t.symlinks)
            &&& m.root_int(12) == Ok::<u64, ErrorView>(t.timestamp_base)
            &&& m.root_int(15) matches Ok(n) && n == t.block_size
            &&& m.root_int(16) == Ok::<u64, ErrorView>(t.total_fs_size)
            &&& m.int_list(17, DEFAULT_LIST_CAP) == Ok::<Seq<u64>, ErrorView>(t.devices)
            &&& m.fs_options() == Ok::<FsOptions, ErrorView>(t.options)
            &&& m.struct_list::<DirEntry>(19) == Ok::<Seq<DirEntry>, ErrorView>(t.dir_entries)
            &&& m.u32_list(20) matches Ok(raw) && t.shared_files == (
            if t.options.packed_shared_files_table {
                crate::metadata::model::unpack_runs(raw)
            } else {
                raw
            })
            &&& m.text_list(27, "features"@) == Ok::<Seq<Seq<char>>, ErrorView>(t.features)
            &&& m.optional_int(34) matches Ok(hole) && match hole {
                Some(n) => t.hole_block_index matches Some(k) && k == n,
                None => t.hole_block_index is None,
            }
            &&& m.int_list(35, DEFAULT_LIST_CAP) == Ok::<Seq<u64>, ErrorView>(t.large_hole_size)
            &&& m.optional_int(36) == Ok::<Option<u64>, ErrorView>(t.total_allocated_fs_size)
            &&& m.optional_int(26) matches Ok(separator) && match separator {
                Some(n) => t.preferred_path_separator matches Some(k) && k == n,
                None => t.preferred_path_separator is None,
            }
        }),
{
}

/// The tables read where each of them does and every feature is one that
/// this build implements: nothing else is asked of them.
pub proof fn lemma_tables_are_owed(m: MetadataView)
    requires
        m.text_list(27, "features"@) is Ok,
        forall|i: int|
            0 <= i < m.text_list(27, "features"@)->Ok_0.len() ==> #[trigger] m.text_list(
                27,
                "features"@,
            )->Ok_0[i] == "sparsefiles"@,
        m.root_int(15) matches Ok(n) && n <= u32::MAX,
        m.fs_options() is Ok,
        m.root_int(12) is Ok,
        m.u32_list(9) is Ok,
        m.u32_list(7) is Ok,
        m.u32_list(8) is Ok,
        m.struct_list::<InodeData>(3) is Ok,
        m.struct_list::<Directory>(2) is Ok,
        m.struct_list::<DirEntry>(19) is Ok,
        m.struct_list::<Chunk>(1) is Ok,
        m.u32_list(4) is Ok,
        m.u32_list(6) is Ok,
        m.shared_files_table() is Ok,
        m.int_list(35, DEFAULT_LIST_CAP) is Ok,
        m.optional_int(34) matches Ok(hole) && (hole matches Some(n) ==> n <= u32::MAX),
        m.strings(24, 10) is Ok,
        m.strings(25, 11) is Ok,
        m.int_list(17, DEFAULT_LIST_CAP) is Ok,
        block_categories_of(m) is Ok,
        m.optional_int(26) matches Ok(separator) && (separator matches Some(n) ==> n <= u32::MAX),
        m.root_int(16) is Ok,
        m.optional_int(36) is Ok,
    ensures
        recorded_tables(m) is Ok,
{
    let features = m.text_list(27, "features"@)->Ok_0;
    lemma_features_all_supported(features, 0);
    assert forall|j: int| 0 <= j < features.len() implies is_supported(
        #[trigger] features[j],
    ) by {
        lemma_supported_features(features[j]);
    }
}

/// An image with features that this build does not implement is refused,
/// and the first of them is named.
pub proof fn lemma_first_unknown_feature_is_named(features: Seq<Seq<char>>, i: nat, k: int)
    requires
        i <= k < features.len(),
        features[k] != "sparsefiles"@,
        forall|j: int| i <= j < k ==> #[trigger] features[j] == "sparsefiles"@,
    ensures
        features_from(features, i) == Err::<(), ErrorView>(
            ErrorView::UnsupportedFeature { name: features[k] },
        ),
    decreases features.len() - i,
{
    lemma_supported_features(features[i as int]);
    if i < k {
        lemma_first_unknown_feature_is_named(features, i + 1, k);
    }
}

/// Every block has the name of the category that is recorded for it.
pub proof fn lemma_categories_are_recorded(m: MetadataView, i: int)
    requires
        block_categories_of(m) is Ok,
        m.text_list(28, "category_names"@)->Ok_0.len() > 0,
        m.block_categories() is Ok,
        0 <= i < m.block_categories()->Ok_0.len(),
    ensures
        ({
            let names = m.text_list(28, "category_names"@)->Ok_0;
            let categories = m.block_categories()->Ok_0;
            &&& block_categories_of(m)->Ok_0.len() == categories.len()
            &&& categories[i] < names.len()
            &&& block_categories_of(m)->Ok_0[i] == names[categories[i] as int]
        }),
{
    let names = m.text_list(28, "category_names"@)->Ok_0;
    let categories = m.block_categories()->Ok_0;
    let get = category_at(names, categories);
    crate::collect::lemma_collect_ok(categories.len(), get);
    assert(get(i as nat) == Ok::<Seq<char>, ErrorView>(block_categories_of(m)->Ok_0[i]));
}

impl Tables {
    /// Read every table as the metadata records it, refusing an image
    /// that declares a feature this build does not implement.
    pub fn recorded(m: &Metadata<'_>) -> (r: Result<Tables, Error>)
        ensures
            viewed(r) == recorded_tables(m@),
            r matches Ok(t) ==> t@.inodes.len() <= DEFAULT_LIST_CAP && t@.dir_entries.len()
                <= DEFAULT_LIST_CAP,
    {
        proof {
            lemma_struct_list_capped::<InodeData>(m@, ID_INODES);
            lemma_struct_list_capped::<DirEntry>(m@, ID_DIR_ENTRIES);
        }
        let features: Vec<String> = m.features()?;
        check_features(features.as_slice())?;
        let block_size: u32 = m.block_size()?;
        let options: FsOptions = m.fs_options()?;
        let timestamp_base: u64 = m.timestamp_base()?;
        let modes: Vec<u32> = m.modes()?;
        let uids: Vec<u32> = m.uids()?;
        let gids: Vec<u32> = m.gids()?;
        let inodes: Vec<InodeData> = m.inodes()?;
        let directories: Vec<Directory> = m.directories()?;
        let dir_entries: Vec<DirEntry> = m.dir_entries()?;
        let chunks: Vec<Chunk> = m.chunks()?;
        let chunk_table: Vec<u32> = m.chunk_table_raw()?;
        let symlink_table: Vec<u32> = m.symlink_table()?;
        let shared_files: Vec<u32> = m.shared_files_table()?;
        let large_hole_size: Vec<u64> = m.large_hole_size()?;
        let hole_block_index: Option<u32> = m.hole_block_index()?;
        let names: Vec<Vec<u8>> = m.names()?;
        let symlinks: Vec<Vec<u8>> = m.symlinks()?;
        let devices: Vec<u64> = m.devices()?;
        let block_category_names: Vec<String> = resolve_block_categories(m)?;
        let preferred_path_separator: Option<u32> = m.preferred_path_separator()?;
        let total_fs_size: u64 = m.total_fs_size()?;
        let total_allocated_fs_size: Option<u64> = m.total_allocated_fs_size()?;
        Ok(
            Tables {
                block_size,
                options,
                timestamp_base,
                modes,
                uids,
                gids,
                inodes,
                directories,
                dir_entries,
                chunks,
                chunk_table,
                symlink_table,
                shared_files,
                large_hole_size,
                hole_block_index,
                names,
                symlinks,
                devices,
                block_category_names,
                features,
                preferred_path_separator,
                total_fs_size,
                total_allocated_fs_size,
            },
        )
    }
}

} // verus!
