//! What a tar archive of the filesystem holds for each entry of a walk.

use crate::error::{Error, ErrorView};
use crate::fs::extract::{relative, relative_path};
use crate::fs::inode::InodeKind;
use crate::fs::records::{lemma_stat_says_what_is_recorded, recorded_mode, recorded_time};
use crate::fs::tree::{Stat, Tree, TreeView};
use crate::fs::walk::{WalkEntry, WalkView};
use crate::utf8::{lossy_of, lossy_text, text_of, to_text};
use vstd::prelude::*;

verus! {

/// The tar path of a `/`-rooted byte path: relative, `.` for the root.
pub open spec fn tar_path_of(path: Seq<u8>) -> Seq<char> {
    if relative(path).len() == 0 {
        "."@
    } else {
        lossy_of(relative(path))
    }
}

/// Convert a DwarFS-internal `/`-rooted byte path to a tar-friendly
/// relative path. Leading `/` is stripped and non-UTF-8 names fall
/// back to replacement characters. Returns `"."` for the root.
pub fn tar_path(path: &[u8]) -> (r: String)
    ensures
        r@ == tar_path_of(path@),
{
    let trimmed: &[u8] = relative_path(path);
    if trimmed.len() == 0 {
        return ".".to_owned();
    }
    lossy_text(trimmed)
}

/// What a tar entry is.
#[derive(Debug)]
pub enum TarKind {
    /// A directory.
    Directory,
    /// A symlink with its target.
    Symlink(String),
    /// A regular file of the given size.
    Regular(u64),
}

/// What a [`TarKind`] says.
#[verifier::ext_equal]
pub enum TarKindView {
    Directory,
    Symlink(Seq<char>),
    Regular(u64),
}

impl View for TarKind {
    type V = TarKindView;

    open spec fn view(&self) -> TarKindView {
        match *self {
            TarKind::Directory => TarKindView::Directory,
            TarKind::Symlink(target) => TarKindView::Symlink(target@),
            TarKind::Regular(size) => TarKindView::Regular(size),
        }
    }
}

/// The header fields of a tar entry.
#[derive(Debug)]
pub struct TarEntry {
    /// Relative path.
    pub path: String,
    /// Permission bits.
    pub mode: u32,
    /// Owner user id.
    pub uid: u64,
    /// Owning group id.
    pub gid: u64,
    /// Modification time in seconds.
    pub mtime: u64,
    /// Kind, with what only that kind has.
    pub kind: TarKind,
}

/// What a [`TarEntry`] says.
#[verifier::ext_equal]
pub struct TarEntryView {
    pub path: Seq<char>,
    pub mode: u32,
    pub uid: u64,
    pub gid: u64,
    pub mtime: u64,
    pub kind: TarKindView,
}

impl View for TarEntry {
    type V = TarEntryView;

    open spec fn view(&self) -> TarEntryView {
        TarEntryView {
            path: self.path@,
            mode: self.mode,
            uid: self.uid,
            gid: self.gid,
            mtime: self.mtime,
            kind: self.kind@,
        }
    }
}

/// The text of a symlink target, empty where it is no UTF-8.
pub open spec fn link_text(target: Seq<u8>) -> Seq<char> {
    match text_of(target) {
        Some(text) => text,
        None => Seq::empty(),
    }
}

/// What the archive holds for an entry of a walk. The root, which every
/// archive has implicitly, and special files have no tar entry.
pub open spec fn tar_entry_of(v: TreeView, entry: WalkView) -> Result<
    Option<TarEntryView>,
    ErrorView,
> {
    if entry.path.len() == 0 {
        Ok(None)
    } else {
        match v.stat(entry.inode) {
            Err(e) => Err(e),
            Ok(stat) => match tar_kind_of(v, entry) {
                Err(e) => Err(e),
                Ok(None) => Ok(None),
                Ok(Some(kind)) => Ok(
                    Some(
                        TarEntryView {
                            path: tar_path_of(entry.path),
                            mode: stat.mode % 4096,
                            uid: stat.uid as u64,
                            gid: stat.gid as u64,
                            mtime: stat.mtime,
                            kind,
                        },
                    ),
                ),
            },
        }
    }
}

/// The kind of an entry's tar entry.
pub open spec fn tar_kind_of(v: TreeView, entry: WalkView) -> Result<
    Option<TarKindView>,
    ErrorView,
> {
    match entry.kind {
        InodeKind::Directory => Ok(Some(TarKindView::Directory)),
        InodeKind::Symlink => match v.read_link(entry.inode) {
            Err(e) => Err(e),
            Ok(target) => Ok(Some(TarKindView::Symlink(link_text(target)))),
        },
        InodeKind::Regular => match v.file_size(entry.inode) {
            Err(e) => Err(e),
            Ok(size) => Ok(Some(TarKindView::Regular(size))),
        },
        _ => Ok(None),
    }
}

/// The archive's entry says what the inode records: its path without the
/// leading `/`, the permissions of its mode, its owner and its group, its
/// time, and the size or the target where its kind has one.
pub proof fn lemma_tar_entry_says_what_is_recorded(v: TreeView, entry: WalkView)
    requires
        tar_entry_of(v, entry) matches Ok(Some(_)),
    ensures
        ({
            let t = tar_entry_of(v, entry)->Ok_0->0;
            let info = v.tables.inodes[entry.inode as int];
            &&& t.mode == recorded_mode(v, entry.inode) % 0x1000
            &&& t.uid == v.tables.uids[info.owner_index as int]
            &&& t.gid == v.tables.gids[info.group_index as int]
            &&& t.mtime == recorded_time(v, info.mtime_offset)
            &&& entry.path.len() > 1 && entry.path[0] == 0x2f ==> t.path == lossy_of(
                entry.path.skip(1),
            )
            &&& entry.kind == InodeKind::Directory <==> t.kind is Directory
            &&& entry.kind == InodeKind::Regular <==> t.kind is Regular
            &&& entry.kind == InodeKind::Symlink <==> t.kind is Symlink
            &&& t.kind matches TarKindView::Regular(size) ==> v.file_size(entry.inode) == Ok::<
                u64,
                ErrorView,
            >(size)
            &&& t.kind matches TarKindView::Symlink(target) ==> (v.read_link(
                entry.inode,
            ) matches Ok(bytes) && (text_of(bytes) matches Some(text) ==> target == text) && (
            text_of(bytes) is None ==> target.len() == 0))
        }),
{
    lemma_stat_says_what_is_recorded(v, entry.inode);
}

/// The archive has an entry for every directory, regular file and symlink
/// of the walk but the root, and for nothing else.
pub proof fn lemma_tar_entries_are_the_plain_kinds(v: TreeView, entry: WalkView)
    requires
        tar_entry_of(v, entry) is Ok,
    ensures
        tar_entry_of(v, entry)->Ok_0 is Some <==> entry.path.len() > 0 && (entry.kind
            == InodeKind::Directory || entry.kind == InodeKind::Regular || entry.kind
            == InodeKind::Symlink),
{
}

/// An entry is refused only where its attributes, its size or its target
/// cannot be read.
pub proof fn lemma_tar_entries_are_owed(v: TreeView, entry: WalkView)
    requires
        v.stat(entry.inode) is Ok,
        entry.kind == InodeKind::Regular ==> v.file_size(entry.inode) is Ok,
        entry.kind == InodeKind::Symlink ==> v.read_link(entry.inode) is Ok,
    ensures
        tar_entry_of(v, entry) is Ok,
{
}

/// Paths in an archive are relative, and the root is a dot.
pub proof fn lemma_tar_paths(path: Seq<u8>)
    ensures
        tar_path_of(Seq::empty()) == "."@,
        tar_path_of(seq![0x2fu8]) == "."@,
        path.len() > 0 ==> tar_path_of(seq![0x2fu8] + path) == lossy_of(path),
{
    assert(seq![0x2fu8].skip(1) =~= Seq::<u8>::empty());
    assert((seq![0x2fu8] + path).skip(1) =~= path);
}

/// What the archive holds for an entry of a walk.
pub fn tar_entry(tree: &Tree, entry: &WalkEntry) -> (r: Result<Option<TarEntry>, Error>)
    ensures
        match r {
            Ok(Some(t)) => tar_entry_of(tree@, entry@) == Ok::<Option<TarEntryView>, ErrorView>(
                Some(t@),
            ),
            Ok(None) => tar_entry_of(tree@, entry@) == Ok::<Option<TarEntryView>, ErrorView>(None),
            Err(e) => tar_entry_of(tree@, entry@) == Err::<Option<TarEntryView>, ErrorView>(e@),
        },
{
    if entry.path.len() == 0 {
        return Ok(None);
    }
    let stat: Stat = tree.stat(entry.inode)?;
    let kind: TarKind = match entry.kind {
        InodeKind::Directory => TarKind::Directory,
        InodeKind::Symlink => {
            let target: &[u8] = tree.read_link(entry.inode)?;
            match to_text(target) {
                Some(text) => TarKind::Symlink(text),
                None => TarKind::Symlink(String::new()),
            }
        },
        InodeKind::Regular => TarKind::Regular(tree.file_size(entry.inode)?),
        _ => {
            return Ok(None);
        },
    };
    Ok(
        Some(
            TarEntry {
                path: tar_path(entry.path.as_slice()),
                mode: stat.mode % 4096,
                uid: stat.uid as u64,
                gid: stat.gid as u64,
                mtime: stat.mtime,
                kind,
            },
        ),
    )
}

/// Cache budget for writing an archive. Files are walked one after the
/// other, so a small working set is enough; a larger one helps when the
/// same blocks back several shared inodes.
pub fn tar_cache_bytes(block_size: u32) -> (r: usize)
    ensures
        r == (if 8 * block_size > usize::MAX {
            usize::MAX as int
        } else {
            8 * block_size
        }),
{
    let wanted: u64 = 8 * (block_size as u64);
    if wanted > usize::MAX as u64 {
        usize::MAX
    } else {
        wanted as usize
    }
}

} // verus!
