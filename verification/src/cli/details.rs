//! Reports on an image's metadata and history.

use crate::cli::report::{borrow_all, join, optional_line, push_joined, str_views};
use crate::format::history::{
    EntryView, HistoryEntry, entry_views, history_of, parse as parse_history, string_views,
};
use crate::format::image::{Image, ImageView, first_section, section_decoded};
use crate::format::sections::{RecordView, SectionRecord};
use crate::format::source::ImageSource;
use crate::format::types::SectionType;
use crate::fs::offsets::InodeOffsets;
use crate::fs::read::Filesystem;
use crate::fs::tree::{TreeView, distinct_from};
use crate::metadata::model::FsOptions;
use crate::metadata::root::{Metadata, MetadataView, texts};
use crate::metadata::schema::{Schema, parse_schema};
use crate::text::{Text, dec, padded_left, padded_right};
use vstd::prelude::*;

verus! {

/// A list of names after one more, where it is set.
pub open spec fn flag(names: Seq<Seq<char>>, on: bool, name: Seq<char>) -> Seq<Seq<char>> {
    if on {
        names.push(name)
    } else {
        names
    }
}

/// Append a name where it is set.
pub fn push_flag(names: &mut Vec<&'static str>, on: bool, name: &'static str)
    ensures
        str_views(final(names)@) == flag(str_views(old(names)@), on, name@),
{
    let ghost before = names@;
    if on {
        names.push(name);
        assert(str_views(names@) =~= str_views(before).push(name@));
    }
}

/// The options that are set, by name.
pub open spec fn option_names(o: FsOptions) -> Seq<Seq<char>> {
    let n = flag(Seq::empty(), o.mtime_only, "mtime_only"@);
    let n = flag(n, o.packed_chunk_table, "packed_chunk_table"@);
    let n = flag(n, o.packed_directories, "packed_directories"@);
    let n = flag(n, o.packed_shared_files_table, "packed_shared_files_table"@);
    let n = flag(n, o.has_btime, "has_btime"@);
    flag(n, o.inodes_have_nlink, "inodes_have_nlink"@)
}

/// Whether a number is that of a character.
pub open spec fn is_scalar(n: u32) -> bool {
    n < 0xd800 || 0xe000 <= n <= 0x10ffff
}

/// `char::from_u32`: the character with a number, when there is one.
#[verifier::external_body]
fn char_from_u32(n: u32) -> (r: Option<char>)
    ensures
        match r {
            Some(c) => is_scalar(n) && c == n as char,
            None => !is_scalar(n),
        },
{
    char::from_u32(n)
}

/// A line of joined names, where there are any.
pub open spec fn names_line(label: Seq<char>, names: Seq<Seq<char>>) -> Seq<char> {
    if names.len() > 0 {
        label + join(names, ", "@) + "\n"@
    } else {
        Seq::empty()
    }
}

fn push_names(t: Text, label: &str, names: &Vec<&str>) -> (r: Text)
    ensures
        r@ == t@ + names_line(label@, str_views(names@)),
{
    let ghost start = t@;
    if names.len() > 0 {
        let out = push_joined(t.str(label), names, ", ").str("\n");
        assert(out@ =~= start + (label@ + join(str_views(names@), ", "@) + "\n"@));
        out
    } else {
        assert(start + Seq::<char>::empty() =~= start);
        t
    }
}

/// The line about the path separator, where one is recorded that is a
/// character.
pub open spec fn separator_line(separator: Option<u32>) -> Seq<char> {
    match separator {
        Some(n) => if is_scalar(n) {
            "Preferred path separator: "@.push(n as char) + "\n"@
        } else {
            Seq::empty()
        },
        None => Seq::empty(),
    }
}

/// What the metadata says of the whole filesystem.
pub open spec fn metadata_text(v: TreeView) -> Seq<char> {
    let t = v.tables;
    ("Block size: "@ + dec(t.block_size as nat) + " bytes\n"@) + names_line(
        "Block categories: "@,
        distinct_from(t.block_category_names, 0, Seq::empty()),
    ) + ("Inode count: "@ + dec(t.inodes.len()) + "\n"@) + ("Original filesystem size: "@ + dec(
        t.total_fs_size as nat,
    ) + " bytes\n"@) + optional_line(
        "Original allocated size: "@,
        match t.total_allocated_fs_size {
            Some(n) => Some(n as nat),
            None => None,
        },
        " bytes\n"@,
    ) + names_line("Features: "@, t.features) + names_line(
        "Options: "@,
        option_names(t.options),
    ) + ("Time resolution: "@ + dec(resolution_of(t.options) as nat) + " seconds\n"@)
        + separator_line(t.preferred_path_separator)
}

/// The recorded time resolution, one second where none is.
pub open spec fn resolution_of(o: FsOptions) -> u32 {
    match o.time_resolution_sec {
        Some(n) => n,
        None => 1,
    }
}

/// The line about the inode partitions.
pub open spec fn offsets_line(o: InodeOffsets) -> Seq<char> {
    "Inode offsets: dir="@ + dec(o.dir_offset as nat) + " symlink="@ + dec(o.symlink_offset as nat)
        + " file="@ + dec(o.file_offset as nat) + " shared="@ + dec(o.shared_file_offset as nat)
        + " device="@ + dec(o.device_offset as nat) + " special="@ + dec(o.special_offset as nat)
        + "\n"@
}

fn push_number(t: Text, label: &str, n: u64, unit: &str) -> (r: Text)
    ensures
        r@ == t@ + (label@ + dec(n as nat) + unit@),
{
    let ghost start = t@;
    let out = t.str(label).num(n).str(unit);
    assert(out@ =~= start + (label@ + dec(n as nat) + unit@));
    out
}

/// What the metadata says of the whole filesystem.
pub fn metadata_report<S: ImageSource>(fs: &Filesystem<S>) -> (r: String)
    ensures
        r@ == metadata_text(fs@.tree),
{
    let mut t = Text::empty();
    assert(Seq::<char>::empty() + ("Block size: "@ + dec(fs@.tree.tables.block_size as nat)
        + " bytes\n"@) =~= "Block size: "@ + dec(fs@.tree.tables.block_size as nat) + " bytes\n"@);
    t = push_number(t, "Block size: ", fs.block_size() as u64, " bytes\n");
    let categories: Vec<&str> = fs.category_names();
    assert(str_views(categories@) == distinct_from(
        fs@.tree.tables.block_category_names,
        0,
        Seq::empty(),
    ));
    t = push_names(t, "Block categories: ", &categories);
    t = push_number(t, "Inode count: ", fs.inode_count() as u64, "\n");
    t = push_number(t, "Original filesystem size: ", fs.total_fs_size(), " bytes\n");
    let ghost before = t@;
    match fs.total_allocated_fs_size() {
        Some(n) => {
            t = push_number(t, "Original allocated size: ", n, " bytes\n");
        },
        None => {
            assert(before + Seq::<char>::empty() =~= before);
        },
    }
    t = push_names(t, "Features: ", &borrow_all(fs.features()));
    let options: FsOptions = fs.options();
    let mut flags: Vec<&'static str> = Vec::new();
    assert(str_views(flags@) =~= Seq::<Seq<char>>::empty());
    push_flag(&mut flags, options.mtime_only, "mtime_only");
    push_flag(&mut flags, options.packed_chunk_table, "packed_chunk_table");
    push_flag(&mut flags, options.packed_directories, "packed_directories");
    push_flag(&mut flags, options.packed_shared_files_table, "packed_shared_files_table");
    push_flag(&mut flags, options.has_btime, "has_btime");
    push_flag(&mut flags, options.inodes_have_nlink, "inodes_have_nlink");
    t = push_names(t, "Options: ", &flags);
    let resolution: u32 = match options.time_resolution_sec {
        Some(n) => n,
        None => 1,
    };
    t = push_number(t, "Time resolution: ", resolution as u64, " seconds\n");
    let ghost before = t@;
    let separator: Option<char> = match fs.preferred_path_separator() {
        Some(n) => char_from_u32(n),
        None => None,
    };
    match separator {
        Some(c) => {
            t = t.str("Preferred path separator: ").chr(c).str("\n");
            assert(t@ =~= before + ("Preferred path separator: "@.push(c) + "\n"@));
        },
        None => {
            assert(before + Seq::<char>::empty() =~= before);
        },
    }
    t.done()
}

/// The line about the inode partitions.
pub fn offsets_report(o: &InodeOffsets) -> (r: String)
    ensures
        r@ == offsets_line(*o),
{
    Text::of("Inode offsets: dir=").num(o.dir_offset as u64).str(" symlink=").num(
        o.symlink_offset as u64,
    ).str(" file=").num(o.file_offset as u64).str(" shared=").num(
        o.shared_file_offset as u64,
    ).str(" device=").num(o.device_offset as u64).str(" special=").num(
        o.special_offset as u64,
    ).str("\n").done()
}

/// The line about a table, where it has entries: how many, and the bytes
/// that they take, rounded up.
#[verifier::opaque]
pub open spec fn table_line(m: MetadataView, id: i16, name: Seq<char>) -> Seq<char> {
    match m.table_size(id) {
        None => Seq::empty(),
        Some((count, bits)) => "  "@ + padded_right(name, 20) + " "@ + padded_left(
            dec(count as nat),
            10,
        ) + " entries "@ + padded_left(dec((count as nat * bits as nat + 7) / 8), 10)
            + " bytes\n"@,
    }
}

/// How much of the metadata each table occupies. Only tables whose
/// elements are fixed-width are listed.
pub open spec fn tables_text(m: MetadataView) -> Seq<char> {
    "Metadata tables:\n"@ + table_line(m, 1, "chunks"@) + table_line(m, 2, "directories"@)
        + table_line(m, 3, "inodes"@) + table_line(m, 4, "chunk_table"@) + table_line(
        m,
        6,
        "symlink_table"@,
    ) + table_line(m, 7, "uids"@) + table_line(m, 8, "gids"@) + table_line(m, 9, "modes"@)
        + table_line(m, 17, "devices"@) + table_line(m, 19, "dir_entries"@) + table_line(
        m,
        20,
        "shared_files_table"@,
    ) + table_line(m, 29, "block_categories"@) + table_line(m, 35, "large_hole_size"@)
}

fn push_table(t: Text, m: &Metadata<'_>, id: i16, name: &str) -> (r: Text)
    ensures
        r@ == t@ + table_line(m@, id, name@),
{
    proof {
        reveal(table_line);
    }
    let ghost start = t@;
    match m.table_size(id) {
        None => {
            assert(start + Seq::<char>::empty() =~= start);
            t
        },
        Some((count, bits)) => {
            assert(count * bits <= 0xffff_ffff_ffff_ffff * 0xffff) by (nonlinear_arith)
                requires
                    count <= 0xffff_ffff_ffff_ffff,
                    bits <= 0xffff,
            ;
            let total: u128 = (count as u128) * (bits as u128);
            let bytes: u128 = (total + 7) / 8;
            let line: String = Text::of("  ").left(name, 20).str(" ").right(count as u128, 10).str(
                " entries ",
            ).right(bytes, 10).str(" bytes\n").done();
            assert(line@ == table_line(m@, id, name@));
            t.str(line.as_str())
        },
    }
}

/// How much of the metadata each table occupies.
///
/// Sizes are derived from the schema: an array's element count times
/// the bits the schema assigns one element. Tables holding no entries
/// are omitted, since a table that costs nothing is not interesting.
pub fn table_sizes(m: &Metadata<'_>) -> (r: String)
    ensures
        r@ == tables_text(m@),
{
    let t = Text::of("Metadata tables:\n");
    let t = push_table(t, m, 1, "chunks");
    let t = push_table(t, m, 2, "directories");
    let t = push_table(t, m, 3, "inodes");
    let t = push_table(t, m, 4, "chunk_table");
    let t = push_table(t, m, 6, "symlink_table");
    let t = push_table(t, m, 7, "uids");
    let t = push_table(t, m, 8, "gids");
    let t = push_table(t, m, 9, "modes");
    let t = push_table(t, m, 17, "devices");
    let t = push_table(t, m, 19, "dir_entries");
    let t = push_table(t, m, 20, "shared_files_table");
    let t = push_table(t, m, 29, "block_categories");
    let t = push_table(t, m, 35, "large_hole_size");
    t.done()
}

/// The report on the tables of an image; nothing where the metadata does
/// not decode.
pub open spec fn image_tables_text(v: ImageView) -> Seq<char> {
    match first_section(v.sections, SectionType::MetadataV2Schema) {
        None => Seq::empty(),
        Some(schema) => match first_section(v.sections, SectionType::MetadataV2) {
            None => Seq::empty(),
            Some(metadata) => match section_decoded(v.bytes, schema, 0x100_0000) {
                Err(_) => Seq::empty(),
                Ok(schema) => match section_decoded(v.bytes, metadata, 0x4000_0000) {
                    Err(_) => Seq::empty(),
                    Ok(metadata) => match parse_schema(schema) {
                        Err(_) => Seq::empty(),
                        Ok(schema) => match MetadataView::parse(schema, metadata) {
                            Err(_) => Seq::empty(),
                            Ok(m) => tables_text(m),
                        },
                    },
                },
            },
        },
    }
}

/// Report how much of the metadata each table of an image occupies;
/// nothing where the metadata does not decode.
pub fn image_table_sizes<S: ImageSource>(image: &Image<S>) -> (r: String)
    ensures
        r@ == image_tables_text(image@) || (!image.reliable() && r@ == Seq::<char>::empty()),
{
    let schema_rec: &SectionRecord = match image.find_section(SectionType::MetadataV2Schema) {
        Some(record) => record,
        None => {
            return String::new();
        },
    };
    let meta_rec: &SectionRecord = match image.find_section(SectionType::MetadataV2) {
        Some(record) => record,
        None => {
            return String::new();
        },
    };
    let schema_bytes: Vec<u8> = match image.decompress_section(schema_rec, 0x100_0000) {
        Ok(bytes) => bytes,
        Err(_) => {
            return String::new();
        },
    };
    let meta_bytes: Vec<u8> = match image.decompress_section(meta_rec, 0x4000_0000) {
        Ok(bytes) => bytes,
        Err(_) => {
            return String::new();
        },
    };
    let schema: Schema = match Schema::parse(schema_bytes.as_slice()) {
        Ok(schema) => schema,
        Err(_) => {
            return String::new();
        },
    };
    match Metadata::parse(&schema, meta_bytes.as_slice()) {
        Ok(m) => table_sizes(&m),
        Err(_) => String::new(),
    }
}

/// What a history entry says.
pub open spec fn history_text(e: EntryView) -> Seq<char> {
    ("History: "@ + dec(e.version.major as nat) + "."@ + dec(e.version.minor as nat) + "."@ + dec(
        e.version.patch as nat,
    ) + " on "@ + e.system_id + " built with "@ + e.compiler_id + "\n"@) + optional_line(
        "  created on: "@,
        match e.timestamp {
            Some(n) => Some(n as nat),
            None => None,
        },
        "\n"@,
    ) + (match e.arguments {
        Some(args) => "  args: "@ + join(args, " "@) + "\n"@,
        None => Seq::empty(),
    })
}

/// Report one history entry.
pub fn history_entry_report(entry: &HistoryEntry) -> (r: String)
    ensures
        r@ == history_text(entry@),
{
    let mut t = Text::of("History: ").num(entry.version.major as u64).str(".").num(
        entry.version.minor as u64,
    ).str(".").num(entry.version.patch as u64).str(" on ").str(entry.system_id.as_str()).str(
        " built with ",
    ).str(entry.compiler_id.as_str()).str("\n");
    let ghost before = t@;
    match entry.timestamp {
        Some(n) => {
            t = push_number(t, "  created on: ", n, "\n");
        },
        None => {
            assert(before + Seq::<char>::empty() =~= before);
        },
    }
    let ghost before = t@;
    match &entry.arguments {
        Some(args) => {
            let parts: Vec<&str> = borrow_all(args.as_slice());
            assert(texts(args@) =~= string_views(args@));
            t = push_joined(t.str("  args: "), &parts, " ").str("\n");
            assert(t@ =~= before + ("  args: "@ + join(string_views(args@), " "@) + "\n"@));
        },
        None => {
            assert(before + Seq::<char>::empty() =~= before);
        },
    }
    t.done()
}

/// What history entries say from index `i` on.
pub open spec fn history_texts(entries: Seq<EntryView>, i: nat) -> Seq<char>
    decreases entries.len() - i,
{
    if i >= entries.len() {
        Seq::empty()
    } else {
        history_text(entries[i as int]) + history_texts(entries, i + 1)
    }
}

/// Report the entries of a history section payload. Fails where it is
/// none.
pub fn history_report(payload: &[u8]) -> (r: Option<String>)
    ensures
        match history_of(payload@) {
            Ok(entries) => r matches Some(text) && text@ == history_texts(entries, 0),
            Err(_) => r is None,
        },
{
    let entries: Vec<HistoryEntry> = match parse_history(payload) {
        Ok(entries) => entries,
        Err(_) => {
            return None;
        },
    };
    let ghost views = entry_views(entries@);
    let ghost want = history_texts(views, 0);
    let mut t = Text::empty();
    assert(Seq::<char>::empty() + want =~= want);
    let mut i: usize = 0;
    while i < entries.len()
        invariant
            i <= entries@.len(),
            views == entry_views(entries@),
            want == t@ + history_texts(views, i as nat),
        decreases entries@.len() - i,
    {
        let line: String = history_entry_report(&entries[i]);
        assert(line@ == history_text(views[i as int]));
        let ghost before = t@;
        let ghost rest = history_texts(views, (i + 1) as nat);
        t = t.str(line.as_str());
        assert(before + (line@ + rest) =~= t@ + rest);
        i = i + 1;
    }
    assert(t@ + Seq::<char>::empty() =~= t@);
    Some(t.done())
}

/// How the report on a history section ends.
#[derive(Debug)]
pub enum HistoryOutcome {
    /// The entries.
    Entries(String),
    /// The section does not decode.
    Undecodable,
    /// The section decodes to something else.
    Unparsable,
}

/// What a [`HistoryOutcome`] says.
#[verifier::ext_equal]
pub enum HistoryOutcomeView {
    Entries(Seq<char>),
    Undecodable,
    Unparsable,
}

impl View for HistoryOutcome {
    type V = HistoryOutcomeView;

    open spec fn view(&self) -> HistoryOutcomeView {
        match *self {
            HistoryOutcome::Entries(text) => HistoryOutcomeView::Entries(text@),
            HistoryOutcome::Undecodable => HistoryOutcomeView::Undecodable,
            HistoryOutcome::Unparsable => HistoryOutcomeView::Unparsable,
        }
    }
}

/// How the report on a section as a history section ends.
pub open spec fn history_outcome(v: ImageView, record: RecordView) -> HistoryOutcomeView {
    match section_decoded(v.bytes, record, 0x100_0000) {
        Err(_) => HistoryOutcomeView::Undecodable,
        Ok(payload) => match history_of(payload) {
            Err(_) => HistoryOutcomeView::Unparsable,
            Ok(entries) => HistoryOutcomeView::Entries(history_texts(entries, 0)),
        },
    }
}

/// Report a history section.
pub fn section_history<S: ImageSource>(image: &Image<S>, record: &SectionRecord) -> (r:
    HistoryOutcome)
    ensures
        r@ == history_outcome(image@, record@) || (!image.reliable() && r@
            == HistoryOutcomeView::Undecodable),
{
    match image.decompress_section(record, 0x100_0000) {
        Err(_) => HistoryOutcome::Undecodable,
        Ok(payload) => match history_report(payload.as_slice()) {
            Some(text) => HistoryOutcome::Entries(text),
            None => HistoryOutcome::Unparsable,
        },
    }
}

} // verus!
