//! What the contracts say of a value is what its fields hold.
//!
//! Contracts speak of most values by their views. A caller reads fields, and
//! these laws tie the two.

use crate::error::{Error, ErrorView};
use crate::format::header::SectionHeader;
use crate::format::history::{HistoryEntry, HistoryVersion};
use crate::format::index::SectionIndex;
use crate::format::sections::{SectionRecord, SectionRef};
use crate::fs::tables::Tables;
use crate::fs::tar::{TarEntry, TarKind, TarKindView};
use crate::fs::tree::Listing;
use crate::fs::walk::WalkEntry;
use crate::fuse::DirItem;
use crate::metadata::schema::{Layout, Schema};
use vstd::prelude::*;

verus! {

/// Directory listings, walks and the items of a mounted directory.
pub proof fn lemma_entries_show_their_fields(l: Listing, w: WalkEntry, d: DirItem)
    ensures
        l@.inode == l.inode && l@.kind == l.kind && l@.name == l.name@,
        w@.path == w.path@ && w@.inode == w.inode && w@.kind == w.kind,
        d@.ino == d.ino && d@.next == d.next && d@.kind == d.kind && d@.name == d.name@,
{
}

/// Entries of an archive.
pub proof fn lemma_archive_entries_show_their_fields(t: TarEntry)
    ensures
        t@.path == t.path@,
        t@.mode == t.mode,
        t@.uid == t.uid,
        t@.gid == t.gid,
        t@.mtime == t.mtime,
        t.kind is Directory <==> t@.kind is Directory,
        t.kind matches TarKind::Symlink(target) ==> t@.kind == TarKindView::Symlink(target@),
        t.kind matches TarKind::Regular(size) ==> t@.kind == TarKindView::Regular(size),
{
}

/// Headers, sections and the section index.
pub proof fn lemma_sections_show_their_fields(
    h: SectionHeader,
    r: SectionRecord,
    s: SectionRef<'_>,
    i: SectionIndex,
)
    ensures
        h@.major == h.major && h@.minor == h.minor,
        h@.sha512_256 == h.sha512_256@ && h@.xxh3_64 == h.xxh3_64,
        h@.number == h.number && h@.section_type == h.section_type,
        h@.compression == h.compression && h@.payload_len == h.payload_len,
        r@.file_offset == r.file_offset && r@.header == r.header@,
        s@.file_offset == s.file_offset && s@.header == s.header@ && s@.bytes == s.bytes@,
        i@.entries == i.entries@ && i@.file_offset == i.file_offset,
{
}

/// Entries of the history.
pub proof fn lemma_history_shows_its_fields(v: HistoryVersion, e: HistoryEntry)
    ensures
        v@.major == v.major && v@.minor == v.minor && v@.patch == v.patch,
        v@.is_release == v.is_release,
        v.git_rev matches Some(s) ==> v@.git_rev == Some(s@),
        v.git_branch matches Some(s) ==> v@.git_branch == Some(s@),
        v.git_desc matches Some(s) ==> v@.git_desc == Some(s@),
        v.git_rev is None ==> v@.git_rev is None,
        v.git_branch is None ==> v@.git_branch is None,
        v.git_desc is None ==> v@.git_desc is None,
        e@.version == e.version@,
        e@.system_id == e.system_id@ && e@.compiler_id == e.compiler_id@,
        e@.timestamp == e.timestamp,
        e@.library_versions.len() == e.library_versions@.len(),
        forall|i: int|
            0 <= i < e.library_versions@.len() ==> #[trigger] e@.library_versions[i]
                == e.library_versions@[i]@,
        e.arguments is None ==> e@.arguments is None,
        e.arguments matches Some(args) ==> (e@.arguments matches Some(texts) && texts.len()
            == args@.len() && forall|i: int|
            0 <= i < args@.len() ==> #[trigger] texts[i] == args@[i]@),
{
}

/// Layouts and schemas.
pub proof fn lemma_schemas_show_their_fields(l: Layout, s: Schema)
    ensures
        l@.size == l.size && l@.bits == l.bits,
        l@.fields == l.fields@ && l@.type_label == l.type_label@,
        s@.file_version == s.file_version && s@.relax_type_checks == s.relax_type_checks,
        s@.root_layout == s.root_layout,
        s@.layouts.dom() == s.layouts@.dom(),
        forall|id: i16|
            s.layouts@.contains_key(id) ==> #[trigger] s@.layouts[id] == s.layouts@[id]@,
{
    assert(s@.layouts.dom() =~= s.layouts@.dom());
}

/// The tables of the metadata.
pub proof fn lemma_tables_show_their_fields(t: Tables)
    ensures
        t@.block_size == t.block_size && t@.options == t.options,
        t@.timestamp_base == t.timestamp_base,
        t@.modes == t.modes@ && t@.uids == t.uids@ && t@.gids == t.gids@,
        t@.inodes == t.inodes@ && t@.directories == t.directories@,
        t@.dir_entries == t.dir_entries@,
        t@.chunks == t.chunks@ && t@.chunk_table == t.chunk_table@,
        t@.symlink_table == t.symlink_table@ && t@.shared_files == t.shared_files@,
        t@.large_hole_size == t.large_hole_size@ && t@.hole_block_index == t.hole_block_index,
        t@.devices == t.devices@,
        t@.preferred_path_separator == t.preferred_path_separator,
        t@.total_fs_size == t.total_fs_size,
        t@.total_allocated_fs_size == t.total_allocated_fs_size,
        t@.names.len() == t.names@.len(),
        forall|i: int| 0 <= i < t.names@.len() ==> #[trigger] t@.names[i] == t.names@[i]@,
        t@.symlinks.len() == t.symlinks@.len(),
        forall|i: int| 0 <= i < t.symlinks@.len() ==> #[trigger] t@.symlinks[i] == t.symlinks@[i]@,
        t@.features.len() == t.features@.len(),
        forall|i: int| 0 <= i < t.features@.len() ==> #[trigger] t@.features[i] == t.features@[i]@,
        t@.block_category_names.len() == t.block_category_names@.len(),
        forall|i: int|
            0 <= i < t.block_category_names@.len() ==> #[trigger] t@.block_category_names[i]
                == t.block_category_names@[i]@,
{
}

/// Errors.
pub proof fn lemma_errors_show_their_fields(e: Error)
    ensures
        e is Io <==> e@ is Io,
        e is NotADwarfsImage <==> e@ is NotADwarfsImage,
        e matches Error::TruncatedHeader { offset } ==> e@ == (ErrorView::TruncatedHeader {
            offset,
        }),
        e matches Error::BadMagic { offset } ==> e@ == (ErrorView::BadMagic { offset }),
        e matches Error::UnsupportedVersion { major, minor } ==> e@ == (
        ErrorView::UnsupportedVersion { major, minor }),
        e matches Error::TruncatedSection { number, offset } ==> e@ == (
        ErrorView::TruncatedSection { number, offset }),
        e matches Error::CorruptSectionIndex { reason } ==> e@ == (
        ErrorView::CorruptSectionIndex { reason: reason@ }),
        e matches Error::IntegrityMismatch { number, kind } ==> e@ == (
        ErrorView::IntegrityMismatch { number, kind: kind@ }),
        e matches Error::CapExceeded { field, cap, value } ==> e@ == (ErrorView::CapExceeded {
            field: field@,
            cap,
            value,
        }),
        e matches Error::CodecUnimplemented { codec } ==> e@ == (ErrorView::CodecUnimplemented {
            codec: codec@,
        }),
        e matches Error::SourceOutOfBounds { offset, len, source_len } ==> e@ == (
        ErrorView::SourceOutOfBounds { offset, len, source_len }),
        e matches Error::UnsupportedFeature { name } ==> e@ == (ErrorView::UnsupportedFeature {
            name: name@,
        }),
        e matches Error::UnknownCompression { value } ==> e@ == (ErrorView::UnknownCompression {
            value,
        }),
        e matches Error::Decode { codec, message } ==> e@ == (ErrorView::Decode {
            codec: codec@,
            message: message@,
        }),
        e matches Error::Encode { codec, message } ==> e@ == (ErrorView::Encode {
            codec: codec@,
            message: message@,
        }),
{
}

} // verus!
