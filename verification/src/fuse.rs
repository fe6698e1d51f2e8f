//! FUSE view of the read-side filesystem.
//!
//! Maps the [`Filesystem`] surface onto what a FUSE mount answers, so a
//! DwarFS image can be mounted read-only.
//!
//! Inode mapping: FUSE expects inode 1 to be the root and rejects 0.
//! DwarFS uses 0 for the root, so a `+1` / `-1` shift is applied at the
//! boundary. The shift is invisible above the FUSE layer.

use crate::error::{Error, ErrorView, answers, viewed};
use crate::format::source::ImageSource;
use crate::fs::cache::{BlockCache, Blocks, CacheView, within_budget};
use crate::fs::content::{
    FsView, agrees, lemma_empty_agrees, lemma_file_contents, lemma_read_in_two_steps,
    lemma_read_past_the_end,
};
use crate::fs::inode::{InodeKind, kind_of_mode};
use crate::fs::offsets::Class;
use crate::fs::read::Filesystem;
use crate::fs::records::{
    entries_end, first_entry, has_entries, is_first_of, lemma_child_is_recorded,
    lemma_listing_says_what_is_recorded, lemma_stat_says_what_is_recorded,
    lemma_symlink_target_is_recorded, recorded_mode, recorded_name, recorded_time,
};
use crate::fs::residency::went_through;
use crate::fs::tree::{Listing, ListingView, Stat, Tree, TreeView, lemma_listing_len, listings};
use vstd::prelude::*;

verus! {

/// Default byte budget for decoded blocks held by a mount.
///
/// Bounding by bytes rather than by block count keeps the ceiling
/// independent of the image's block size, which a reader does not
/// choose. A budget smaller than the working set is a cliff rather
/// than a gentle tradeoff: random reads across an image whose blocks
/// do not all fit evict and re-decode constantly, which costs an
/// order of magnitude. Override with `-o cachesize=SIZE`.
pub const DEFAULT_BLOCK_CACHE_BYTES: usize = 536870912;

/// How a request fails.
#[derive(Debug, Clone, Copy, PartialEq, Eq, Structural)]
pub enum Failure {
    /// `ENOENT`.
    NoEntry,
    /// `EIO`.
    Io,
    /// `EINVAL`.
    Invalid,
    /// `ENOTDIR`.
    NotDirectory,
}

impl View for Failure {
    type V = Failure;

    open spec fn view(&self) -> Failure {
        *self
    }
}

/// The DwarFS inode behind a kernel-facing one.
pub open spec fn inner_inode(fuse: u64) -> Option<u32> {
    if 1 <= fuse <= 0x1_0000_0000 {
        Some((fuse - 1) as u32)
    } else {
        None
    }
}

/// The kernel-facing inode of a DwarFS inode.
pub open spec fn outer_inode(inode: u32) -> u64 {
    (inode + 1) as u64
}

/// The shift of inode numbers is undone by its inverse, and no DwarFS
/// inode becomes the reserved number zero.
pub proof fn lemma_inode_shift_roundtrip(inode: u32, fuse: u64)
    ensures
        inner_inode(outer_inode(inode)) == Some(inode),
        outer_inode(inode) != 0,
        inner_inode(fuse) matches Some(i) ==> outer_inode(i) == fuse,
        outer_inode(0) == 1,
{
}

/// Convert a kernel-facing FUSE inode (root = 1) to a DwarFS
/// inode (root = 0). Fails for invalid inodes (FUSE values < 1 are
/// reserved).
pub fn dwarfs_ino(fuse_ino: u64) -> (r: Result<u32, Failure>)
    ensures
        r == (match inner_inode(fuse_ino) {
            Some(inode) => Ok::<u32, Failure>(inode),
            None => Err(Failure::NoEntry),
        }),
{
    if fuse_ino == 0 || fuse_ino - 1 > u32::MAX as u64 {
        return Err(Failure::NoEntry);
    }
    Ok((fuse_ino - 1) as u32)
}

/// Convert a DwarFS inode to a kernel-facing FUSE inode.
pub fn fuse_ino(dwarfs_ino: u32) -> (r: u64)
    ensures
        r == outer_inode(dwarfs_ino),
{
    dwarfs_ino as u64 + 1
}

/// The Linux device number of a major and a minor number: bits 0 to 7 and
/// 20 to 43 hold the minor one, bits 8 to 19 and 44 to 63 the major one.
pub open spec fn device_number(major: u32, minor: u32) -> nat {
    (minor as nat % 256) + (major as nat % 4096) * 256 + (minor as nat / 256) * 0x10_0000 + (
    major as nat / 4096) * 0x1000_0000_0000
}

/// Pack a major and a minor number into a Linux device number.
fn makedev(major: u32, minor: u32) -> (r: u64)
    ensures
        r == device_number(major, minor),
{
    (minor as u64 % 256) + (major as u64 % 4096) * 256 + (minor as u64 / 256) * 0x10_0000 + (
    major as u64 / 4096) * 0x1000_0000_0000
}

/// The kernel-facing number of a recorded device number.
pub open spec fn rdev_of(recorded: u64) -> u32 {
    (device_number(
        (recorded / 0x1_0000_0000) as u32,
        (recorded % 0x1_0000_0000) as u32,
    ) % 0x1_0000_0000) as u32
}

/// Encode `(major << 32) | minor` (DwarFS layout) into the
/// kernel-facing `dev_t` representation FUSE expects. Truncated to
/// 32 bits since a FUSE attribute's `rdev` is `u32`; for the vast
/// majority of real devices this fits comfortably.
pub fn encode_rdev(dwarfs_rdev: u64) -> (r: u32)
    ensures
        r == rdev_of(dwarfs_rdev),
{
    let major: u32 = (dwarfs_rdev / 0x1_0000_0000) as u32;
    let minor: u32 = (dwarfs_rdev % 0x1_0000_0000) as u32;
    let dev: u64 = makedev(major, minor);
    (dev % 0x1_0000_0000) as u32
}

/// The attributes of an inode as a mount reports them.
#[derive(Debug, Clone, Copy)]
pub struct Attr {
    /// Kernel-facing inode number.
    pub ino: u64,
    /// Size in bytes.
    pub size: u64,
    /// Size in 512-byte blocks, rounded up.
    pub blocks: u64,
    /// Access time in seconds.
    pub atime: u64,
    /// Modification time in seconds.
    pub mtime: u64,
    /// Status-change time in seconds.
    pub ctime: u64,
    /// Creation time in seconds: the modification time.
    pub crtime: u64,
    /// Inode kind.
    pub kind: InodeKind,
    /// Permission bits.
    pub perm: u16,
    /// Number of hardlinks.
    pub nlink: u32,
    /// Owner user id.
    pub uid: u32,
    /// Owning group id.
    pub gid: u32,
    /// Device number.
    pub rdev: u32,
    /// Preferred I/O size: the block size.
    pub blksize: u32,
}

impl View for Attr {
    type V = Attr;

    open spec fn view(&self) -> Attr {
        *self
    }
}

/// The kind a mount shows. An entry that the metadata does not classify
/// shows as a regular file so the mount stays navigable.
pub open spec fn shown_kind(kind: InodeKind) -> InodeKind {
    if kind == InodeKind::Unknown {
        InodeKind::Regular
    } else {
        kind
    }
}

/// The kind a mount shows for an inode kind.
pub fn file_type(kind: InodeKind) -> (r: InodeKind)
    ensures
        r == shown_kind(kind),
{
    if kind == InodeKind::Unknown {
        InodeKind::Regular
    } else {
        kind
    }
}

/// The attributes of an inode.
pub open spec fn attr_of(v: TreeView, inode: u32) -> Result<Attr, ErrorView> {
    match v.stat(inode) {
        Err(e) => Err(e),
        Ok(stat) => Ok(
            Attr {
                ino: outer_inode(inode),
                size: stat.size,
                blocks: ((stat.size + 511) / 512) as u64,
                atime: stat.atime,
                mtime: stat.mtime,
                ctime: stat.ctime,
                crtime: stat.mtime,
                kind: shown_kind(stat.kind),
                perm: (stat.mode % 4096) as u16,
                nlink: stat.nlink,
                uid: stat.uid,
                gid: stat.gid,
                rdev: rdev_of(stat.rdev),
                blksize: v.tables.block_size,
            },
        ),
    }
}

/// Whether attributes say what the inode behind their number records: the
/// owner and the group that its indices stand for, the permissions of its
/// mode, its times, its links and its size, in bytes and in blocks of 512
/// bytes.
pub open spec fn reports_the_record(v: TreeView, a: Attr) -> bool {
    let inode = (a.ino - 1) as u32;
    let info = v.tables.inodes[inode as int];
    let mode = v.tables.modes[info.mode_index as int];
    &&& 1 <= a.ino <= v.tables.inodes.len()
    &&& a.uid == v.tables.uids[info.owner_index as int]
    &&& a.gid == v.tables.gids[info.group_index as int]
    &&& a.perm == mode % 0x1000
    &&& a.kind == (if kind_of_mode(mode) == InodeKind::Unknown {
        InodeKind::Regular
    } else {
        kind_of_mode(mode)
    })
    &&& a.mtime == recorded_time(v, info.mtime_offset)
    &&& a.crtime == a.mtime
    &&& v.tables.options.mtime_only ==> a.atime == a.mtime && a.ctime == a.mtime
    &&& !v.tables.options.mtime_only ==> a.atime == recorded_time(v, info.atime_offset) && a.ctime
        == recorded_time(v, info.ctime_offset)
    &&& v.tables.options.inodes_have_nlink && info.nlink_minus_one < u32::MAX ==> a.nlink
        == info.nlink_minus_one + 1
    &&& !v.tables.options.inodes_have_nlink ==> a.nlink == 1
    &&& v.file_size(inode) == Ok::<u64, ErrorView>(a.size)
    &&& a.size <= 512 * a.blocks < a.size + 512
    &&& a.blksize == v.tables.block_size
    &&& kind_of_mode(mode).is_device() && v.device_rdev(inode) is Ok ==> a.rdev == rdev_of(
        v.device_rdev(inode)->Ok_0,
    )
    &&& !kind_of_mode(mode).is_device() ==> a.rdev == 0
}

/// The attributes of an inode bear its number and report its record.
pub proof fn lemma_attributes_report_the_record(v: TreeView, inode: u32)
    requires
        v.tables.inodes.len() <= u32::MAX,
        attr_of(v, inode) is Ok,
    ensures
        attr_of(v, inode)->Ok_0.ino == inode + 1,
        reports_the_record(v, attr_of(v, inode)->Ok_0),
{
    lemma_stat_says_what_is_recorded(v, inode);
}

/// A lookup that finds something reports the record of the inode that an
/// entry of the directory with that name has, and finds nothing exactly
/// when no entry of the directory has the name.
pub proof fn lemma_lookup_reports_the_named_entry(v: TreeView, parent: u64, name: Seq<u8>)
    requires
        v.tables.inodes.len() <= u32::MAX,
        1 <= parent <= 0x1_0000_0000,
        has_entries(v, (parent - 1) as u32),
    ensures
        ({
            let dir = (parent - 1) as u32;
            match lookup_reply(v, parent, name) {
                Ok(a) => reports_the_record(v, a) && exists|e: int|
                    first_entry(v, dir) <= e < entries_end(v, dir) && (
                    #[trigger] v.tables.dir_entries[e]).inode_num + 1 == a.ino && recorded_name(v, e)
                        == name && forall|d: int|
                        first_entry(v, dir) <= d < e ==> #[trigger] recorded_name(v, d) != name,
                Err(Failure::NoEntry) => forall|e: int|
                    first_entry(v, dir) <= e < entries_end(v, dir) ==> #[trigger] recorded_name(
                        v,
                        e,
                    ) != name,
                Err(f) => f == Failure::Io && exists|e: int|
                    first_entry(v, dir) <= e < entries_end(v, dir) && #[trigger] recorded_name(v, e)
                        == name,
            }
        }),
{
    let dir = (parent - 1) as u32;
    lemma_child_is_recorded(v, dir, name);
    if let Ok(Some(child)) = v.lookup_child(dir, name) {
        let e = choose|e: int|
            first_entry(v, dir) <= e < entries_end(v, dir) && (
            #[trigger] v.tables.dir_entries[e]).inode_num == child && recorded_name(v, e) == name
                && forall|d: int|
                first_entry(v, dir) <= d < e ==> #[trigger] recorded_name(v, d) != name;
        assert(v.tables.dir_entries[e].inode_num == child);
        assert(recorded_name(v, e) == name);
        if attr_of(v, child) is Ok {
            lemma_attributes_report_the_record(v, child);
        }
    }
}

/// What a request for a symlink's target answers is the recorded target.
pub proof fn lemma_readlink_gives_the_recorded_target(v: TreeView, first: int, ino: u64)
    requires
        v.consistent(),
        1 <= ino <= 0x1_0000_0000,
        is_first_of(v, Class::Symlink, first),
        v.kind((ino - 1) as u32) == Ok::<InodeKind, ErrorView>(InodeKind::Symlink),
        ino - 1 - first < v.tables.symlink_table.len(),
        v.tables.symlink_table[ino - 1 - first] < v.tables.symlinks.len(),
    ensures
        readlink_reply(v, ino) == Ok::<Seq<u8>, Failure>(
            v.tables.symlinks[v.tables.symlink_table[ino - 1 - first] as int],
        ),
{
    lemma_symlink_target_is_recorded(v, first, (ino - 1) as u32);
}

/// A device number as a mount shows it gives the major and the minor
/// number back, as Linux takes one apart, where they fit its 32 bits.
pub proof fn lemma_device_numbers_come_apart(major: u32, minor: u32)
    requires
        major < 0x1000,
        minor < 0x10_0000,
    ensures
        ({
            let shown = rdev_of((major * 0x1_0000_0000 + minor) as u64);
            &&& (shown / 0x100) % 0x1000 == major
            &&& (shown / 0x10_0000) * 0x100 + shown % 0x100 == minor
        }),
{
    let recorded = (major * 0x1_0000_0000 + minor) as u64;
    assert(recorded / 0x1_0000_0000 == major);
    assert(recorded % 0x1_0000_0000 == minor);
    let low = minor as int % 0x100;
    let high = minor as int / 0x100;
    assert(device_number(major, minor) == low + major * 0x100 + high * 0x10_0000);
    assert(high < 0x1000);
    let shown = rdev_of(recorded) as int;
    assert(shown == low + major * 0x100 + high * 0x10_0000);
    assert(shown / 0x100 == major + high * 0x1000);
}

/// Attributes of a DwarFS inode.
pub fn attributes<S: ImageSource>(fs: &Filesystem<S>, inode: u32) -> (r: Result<Attr, Error>)
    ensures
        viewed(r) == attr_of(fs@.tree, inode),
        r matches Ok(a) ==> a.ino == inode + 1 && reports_the_record(fs@.tree, a),
{
    let tree: &Tree = fs.tree();
    proof {
        if attr_of(fs@.tree, inode) is Ok {
            lemma_attributes_report_the_record(fs@.tree, inode);
        }
    }
    let stat: Stat = tree.stat(inode)?;
    let whole: u64 = stat.size / 512;
    let blocks: u64 = if stat.size % 512 == 0 {
        whole
    } else {
        whole + 1
    };
    Ok(
        Attr {
            ino: fuse_ino(inode),
            size: stat.size,
            blocks,
            atime: stat.atime,
            mtime: stat.mtime,
            ctime: stat.ctime,
            crtime: stat.mtime,
            kind: file_type(stat.kind),
            perm: (stat.mode % 4096) as u16,
            nlink: stat.nlink,
            uid: stat.uid,
            gid: stat.gid,
            rdev: encode_rdev(stat.rdev),
            blksize: fs.block_size(),
        },
    )
}

/// What a lookup answers.
pub open spec fn lookup_reply(v: TreeView, parent: u64, name: Seq<u8>) -> Result<Attr, Failure> {
    match inner_inode(parent) {
        None => Err(Failure::NoEntry),
        Some(dir) => match v.lookup_child(dir, name) {
            Ok(Some(child)) => match attr_of(v, child) {
                Ok(attr) => Ok(attr),
                Err(_) => Err(Failure::Io),
            },
            _ => Err(Failure::NoEntry),
        },
    }
}

/// Answer a lookup of `name` in a directory.
pub fn lookup<S: ImageSource>(fs: &Filesystem<S>, parent: u64, name: &[u8]) -> (r: Result<
    Attr,
    Failure,
>)
    ensures
        r == lookup_reply(fs@.tree, parent, name@),
        r matches Ok(a) ==> reports_the_record(fs@.tree, a),
{
    let dir: u32 = dwarfs_ino(parent)?;
    // Search the directory rather than listing it: a listing allocates a
    // name for every entry, on every lookup, and a lookup happens for
    // each path component of every open.
    let child: u32 = match fs.lookup_child(dir, name) {
        Ok(Some(inode)) => inode,
        _ => {
            return Err(Failure::NoEntry);
        },
    };
    match attributes(fs, child) {
        Ok(attr) => Ok(attr),
        Err(_) => Err(Failure::Io),
    }
}

/// Answer a request for the attributes of an inode.
pub fn getattr<S: ImageSource>(fs: &Filesystem<S>, ino: u64) -> (r: Result<Attr, Failure>)
    ensures
        r == (match inner_inode(ino) {
            None => Err::<Attr, Failure>(Failure::NoEntry),
            Some(inode) => match attr_of(fs@.tree, inode) {
                Ok(attr) => Ok(attr),
                Err(_) => Err(Failure::NoEntry),
            },
        }),
        r matches Ok(a) ==> a.ino == ino && reports_the_record(fs@.tree, a),
{
    let inode: u32 = dwarfs_ino(ino)?;
    match attributes(fs, inode) {
        Ok(attr) => Ok(attr),
        Err(_) => Err(Failure::NoEntry),
    }
}

/// What a request for a symlink's target answers.
pub open spec fn readlink_reply(v: TreeView, ino: u64) -> Result<Seq<u8>, Failure> {
    match inner_inode(ino) {
        None => Err(Failure::NoEntry),
        Some(inode) => match v.read_link(inode) {
            Ok(target) => Ok(target),
            Err(_) => Err(Failure::Invalid),
        },
    }
}

/// Answer a request for a symlink's target.
pub fn readlink<S: ImageSource>(fs: &Filesystem<S>, ino: u64) -> (r: Result<&[u8], Failure>)
    ensures
        match r {
            Ok(target) => readlink_reply(fs@.tree, ino) == Ok::<Seq<u8>, Failure>(target@),
            Err(f) => readlink_reply(fs@.tree, ino) == Err::<Seq<u8>, Failure>(f),
        },
{
    let inode: u32 = dwarfs_ino(ino)?;
    match fs.read_link(inode) {
        Ok(target) => Ok(target),
        Err(_) => Err(Failure::Invalid),
    }
}

/// One entry of a directory as a mount reports it.
#[derive(Debug)]
pub struct DirItem {
    /// Kernel-facing inode number.
    pub ino: u64,
    /// Offset at which the entry after this one is found.
    pub next: u64,
    /// Inode kind.
    pub kind: InodeKind,
    /// Entry name.
    pub name: Vec<u8>,
}

/// What a [`DirItem`] says.
#[verifier::ext_equal]
pub struct DirItemView {
    pub ino: u64,
    pub next: u64,
    pub kind: InodeKind,
    pub name: Seq<u8>,
}

impl View for DirItem {
    type V = DirItemView;

    open spec fn view(&self) -> DirItemView {
        DirItemView { ino: self.ino, next: self.next, kind: self.kind, name: self.name@ }
    }
}

/// The items behind a vector.
pub open spec fn dir_items(v: Seq<DirItem>) -> Seq<DirItemView> {
    v.map_values(|i: DirItem| i@)
}

/// The parent shown for a directory: itself where none is recorded.
pub open spec fn shown_parent(v: TreeView, inode: u32) -> u32 {
    match v.parent(inode) {
        Ok(parent) => parent,
        Err(_) => inode,
    }
}

/// Item `i` of a directory: `.`, `..`, then what it lists.
pub open spec fn item_at(v: TreeView, inode: u32, list: Seq<ListingView>, i: int) -> DirItemView {
    if i == 0 {
        DirItemView {
            ino: outer_inode(inode),
            next: 1,
            kind: InodeKind::Directory,
            name: seq![0x2eu8],
        }
    } else if i == 1 {
        DirItemView {
            ino: outer_inode(shown_parent(v, inode)),
            next: 2,
            kind: InodeKind::Directory,
            name: seq![0x2eu8, 0x2eu8],
        }
    } else {
        DirItemView {
            ino: outer_inode(list[i - 2].inode),
            next: (i + 1) as u64,
            kind: shown_kind(list[i - 2].kind),
            name: list[i - 2].name,
        }
    }
}

/// What a request for the items of a directory from `offset` on answers.
pub open spec fn readdir_reply(v: TreeView, ino: u64, offset: u64) -> Result<
    Seq<DirItemView>,
    Failure,
> {
    match inner_inode(ino) {
        None => Err(Failure::NoEntry),
        Some(inode) => match v.read_dir(inode) {
            Err(_) => Err(Failure::NotDirectory),
            Ok(list) => Ok(
                Seq::new(
                    if list.len() + 2 > offset {
                        (list.len() + 2 - offset) as nat
                    } else {
                        0
                    },
                    |k: int| item_at(v, inode, list, offset + k),
                ),
            ),
        },
    }
}

/// The item after one that was reported is found at the offset reported
/// with it: reading a directory in pages neither repeats nor misses items.
pub proof fn lemma_readdir_pages(v: TreeView, ino: u64, offset: u64, k: int)
    requires
        readdir_reply(v, ino, offset) is Ok,
        0 <= k < readdir_reply(v, ino, offset)->Ok_0.len(),
        offset + k < u64::MAX,
    ensures
        ({
            let page = readdir_reply(v, ino, offset)->Ok_0;
            readdir_reply(v, ino, page[k].next) == Ok::<Seq<DirItemView>, Failure>(
                page.skip(k + 1),
            )
        }),
{
    let page = readdir_reply(v, ino, offset)->Ok_0;
    assert(page[k].next == offset + k + 1);
    let next = readdir_reply(v, ino, page[k].next)->Ok_0;
    assert(next =~= page.skip(k + 1));
}

/// A directory reads as `.`, `..` and then its own entries in order, each
/// with the name and the inode that the tables record, and with the offset
/// of the next.
pub proof fn lemma_readdir_lists_the_directory(v: TreeView, ino: u64)
    requires
        v.consistent(),
        readdir_reply(v, ino, 0) is Ok,
    ensures
        ({
            let items = readdir_reply(v, ino, 0)->Ok_0;
            let dir = (ino - 1) as u32;
            &&& 1 <= ino <= 0x1_0000_0000
            &&& items.len() == 2 + entries_end(v, dir) - first_entry(v, dir)
            &&& items[0].name == seq![0x2eu8]
            &&& items[0].ino == ino
            &&& items[1].name == seq![0x2eu8, 0x2eu8]
            &&& v.parent(dir) matches Ok(parent) ==> items[1].ino == parent + 1
            &&& forall|k: int| 0 <= k < items.len() ==> (#[trigger] items[k]).next == k + 1
            &&& forall|k: int|
                2 <= k < items.len() ==> {
                    let e = first_entry(v, dir) + k - 2;
                    &&& (#[trigger] items[k]).name == recorded_name(v, e)
                    &&& items[k].ino == v.tables.dir_entries[e].inode_num + 1
                    &&& items[k].kind == shown_kind(
                        kind_of_mode(recorded_mode(v, v.tables.dir_entries[e].inode_num)),
                    )
                }
        }),
{
    let dir = inner_inode(ino)->0;
    lemma_listing_says_what_is_recorded(v, dir);
    lemma_listing_len(v, dir);
    let items = readdir_reply(v, ino, 0)->Ok_0;
    let list = v.read_dir(dir)->Ok_0;
    assert forall|k: int| 2 <= k < items.len() implies {
        let e = first_entry(v, dir) + k - 2;
        &&& (#[trigger] items[k]).name == recorded_name(v, e)
        &&& items[k].ino == v.tables.dir_entries[e].inode_num + 1
        &&& items[k].kind == shown_kind(
            kind_of_mode(recorded_mode(v, v.tables.dir_entries[e].inode_num)),
        )
    } by {
        assert(items[k] == item_at(v, dir, list, k));
        assert(list[k - 2].name == recorded_name(v, first_entry(v, dir) + (k - 2)));
    }
}

/// Answer a request for the items of a directory from `offset` on. The
/// "." and ".." entries the kernel expects come first; the root is its
/// own parent.
pub fn readdir<S: ImageSource>(fs: &Filesystem<S>, ino: u64, offset: u64) -> (r: Result<
    Vec<DirItem>,
    Failure,
>)
    ensures
        match r {
            Ok(v) => readdir_reply(fs@.tree, ino, offset) == Ok::<Seq<DirItemView>, Failure>(
                dir_items(v@),
            ),
            Err(f) => readdir_reply(fs@.tree, ino, offset) == Err::<Seq<DirItemView>, Failure>(f),
        },
{
    let tree: &Tree = fs.tree();
    let ghost v = tree@;
    let inode: u32 = dwarfs_ino(ino)?;
    let parent: u32 = match fs.parent(inode) {
        Ok(p) => p,
        Err(_) => inode,
    };
    let list: Vec<Listing> = match fs.read_dir(inode) {
        Ok(list) => list,
        Err(_) => {
            return Err(Failure::NotDirectory);
        },
    };
    let ghost views = listings(list@);
    let ghost want = readdir_reply(v, ino, offset)->Ok_0;
    let mut out: Vec<DirItem> = Vec::new();
    let mut i: u64 = offset;
    if i == 0 {
        let mut name: Vec<u8> = Vec::new();
        name.push(0x2e);
        assert(name@ =~= seq![0x2eu8]);
        out.push(DirItem { ino: fuse_ino(inode), next: 1, kind: InodeKind::Directory, name });
        i = 1;
    }
    if i == 1 {
        let mut name: Vec<u8> = Vec::new();
        name.push(0x2e);
        name.push(0x2e);
        assert(name@ =~= seq![0x2eu8, 0x2eu8]);
        out.push(DirItem { ino: fuse_ino(parent), next: 2, kind: InodeKind::Directory, name });
        i = 2;
    }
    proof {
        lemma_listing_len(v, inode);
        assert(fs@.tree.consistent());
    }
    let count: u64 = list.len() as u64;
    while i - 2 < count
        invariant
            v == fs@.tree,
            i >= 2,
            count == list@.len() <= u32::MAX,
            views == listings(list@),
            v.read_dir(inode) == Ok::<Seq<ListingView>, ErrorView>(views),
            inner_inode(ino) == Some(inode),
            want == readdir_reply(v, ino, offset)->Ok_0,
            i == offset + out@.len() || (i == offset && out@.len() == 0),
            i - 2 <= count || out@.len() == 0,
            forall|k: int| 0 <= k < out@.len() ==> #[trigger] out@[k]@ == item_at(
                v,
                inode,
                views,
                offset + k,
            ),
        decreases count + 2 - i,
    {
        let entry: &Listing = &list[(i - 2) as usize];
        assert(views[i - 2] == entry@);
        let name: Vec<u8> = entry.name.clone();
        assert(name@ == entry.name@);
        out.push(
            DirItem {
                ino: fuse_ino(entry.inode),
                next: i + 1,
                kind: file_type(entry.kind),
                name,
            },
        );
        i = i + 1;
    }
    assert(dir_items(out@) =~= want);
    Ok(out)
}

/// A [`Filesystem`] with the block cache of one mount.
pub struct DwarfsFuse<S: ImageSource = Vec<u8>> {
    fs: Filesystem<S>,
    /// Persistent block cache, kept across calls so repeated reads do not
    /// decompress the same block again.
    cache: BlockCache,
}

impl<S: ImageSource> DwarfsFuse<S> {
    /// The filesystem.
    pub closed spec fn inner(&self) -> FsView {
        self.fs@
    }

    /// The block cache.
    pub closed spec fn cached(&self) -> CacheView {
        self.cache@
    }

    /// Whether every read inside the image's source succeeds.
    pub closed spec fn reliable(&self) -> bool {
        self.fs.reliable()
    }

    /// Every cached block is a block of the filesystem.
    #[verifier::type_invariant]
    closed spec fn wf(&self) -> bool {
        agrees(self.cache@, self.fs@)
    }

    /// Build a FUSE wrapper around an opened DwarFS filesystem, using
    /// the default block-cache byte budget.
    pub fn new(fs: Filesystem<S>) -> (r: Self)
        ensures
            r.inner() == fs@,
            r.reliable() == fs.reliable(),
            r.cached() == (CacheView {
                budget: DEFAULT_BLOCK_CACHE_BYTES as nat,
                blocks: Blocks::empty(),
                loading: Set::empty(),
            }),
    {
        Self::with_cache(fs, DEFAULT_BLOCK_CACHE_BYTES)
    }

    /// Build a FUSE wrapper with a specific block-cache byte budget.
    pub fn with_cache(fs: Filesystem<S>, cache_bytes: usize) -> (r: Self)
        ensures
            r.inner() == fs@,
            r.reliable() == fs.reliable(),
            r.cached() == (CacheView {
                budget: cache_bytes as nat,
                blocks: Blocks::empty(),
                loading: Set::empty(),
            }),
    {
        let cache = BlockCache::new(cache_bytes);
        proof {
            lemma_empty_agrees(cache@, fs@);
        }
        DwarfsFuse { fs, cache }
    }

    /// Borrow the filesystem.
    pub fn filesystem(&self) -> (r: &Filesystem<S>)
        ensures
            r@ == self.inner(),
            r.reliable() == self.reliable(),
    {
        &self.fs
    }

    /// Take the filesystem and the cache apart, for a mount whose readers
    /// share the cache behind a lock.
    pub fn into_parts(self) -> (r: (Filesystem<S>, BlockCache))
        ensures
            r.0@ == self.inner(),
            r.0.reliable() == self.reliable(),
            r.1@ == self.cached(),
            agrees(r.1@, r.0@),
    {
        proof {
            use_type_invariant(&self);
        }
        (self.fs, self.cache)
    }
}

/// What a read answers: the bytes of the range, or how it fails.
pub open spec fn read_reply(
    v: FsView,
    reliable: bool,
    ino: u64,
    offset: u64,
    size: u32,
    r: Result<Seq<u8>, Failure>,
) -> bool {
    match inner_inode(ino) {
        None => r == Err::<Seq<u8>, Failure>(Failure::NoEntry),
        Some(inode) => match v.read(inode, offset, size as nat) {
            Ok(bytes) => r == Ok::<Seq<u8>, Failure>(bytes) || (!reliable && r == Err::<
                Seq<u8>,
                Failure,
            >(Failure::Io)),
            Err(_) => r == Err::<Seq<u8>, Failure>(Failure::Io),
        },
    }
}

/// The bytes that a read answers are those of the file from `offset` on,
/// as many as were asked for or the file has left.
pub proof fn lemma_read_answers_with_the_contents(
    v: FsView,
    reliable: bool,
    ino: u64,
    offset: u64,
    size: u32,
    bytes: Seq<u8>,
)
    requires
        v.tree.consistent(),
        1 <= ino <= 0x1_0000_0000,
        offset + size <= u64::MAX,
        v.read_file((ino - 1) as u32) is Ok,
        read_reply(v, reliable, ino, offset, size, Ok(bytes)),
    ensures
        ({
            let all = v.read_file((ino - 1) as u32)->Ok_0;
            &&& offset >= all.len() ==> bytes.len() == 0
            &&& offset < all.len() && offset + size <= all.len() ==> bytes == all.subrange(
                offset as int,
                offset + size,
            )
            &&& offset < all.len() < offset + size ==> bytes == all.skip(offset as int)
        }),
{
    let inode = (ino - 1) as u32;
    let all = v.read_file(inode)->Ok_0;
    let len = v.tree.file_size(inode)->Ok_0;
    lemma_file_contents(v, inode, 0, 0);
    if offset >= len {
        lemma_read_past_the_end(v, inode, offset, size as nat);
    } else if offset + size <= len {
        lemma_file_contents(v, inode, offset, size as nat);
    } else {
        let near = (len - offset) as nat;
        let far = (size - near) as nat;
        lemma_file_contents(v, inode, offset, near);
        lemma_read_in_two_steps(v, inode, offset, near, far);
        lemma_read_past_the_end(v, inode, len, far);
        assert(all.subrange(offset as int, len as int) + Seq::<u8>::empty() =~= all.skip(
            offset as int,
        ));
    }
}

/// Answer a read of at most `size` bytes at `offset`.
pub fn read<S: ImageSource>(
    fs: &Filesystem<S>,
    ino: u64,
    offset: u64,
    size: u32,
    cache: &mut BlockCache,
) -> (r: Result<Vec<u8>, Failure>)
    ensures
        agrees(old(cache)@, fs@) ==> agrees(final(cache)@, fs@) && read_reply(
            fs@,
            fs.reliable(),
            ino,
            offset,
            size,
            match r {
                Ok(bytes) => Ok::<Seq<u8>, Failure>(bytes@),
                Err(f) => Err(f),
            },
        ),
        match inner_inode(ino) {
            None => final(cache)@ == old(cache)@,
            Some(inode) => went_through(
                old(cache)@,
                final(cache)@,
                fs@,
                fs@.blocks_of_read(inode, offset, size as nat),
                r is Ok,
            ),
        },
        final(cache)@.budget == old(cache)@.budget,
        within_budget(final(cache)@),
{
    proof {
        use_type_invariant(&*cache);
        cache.lemma_wf();
    }
    let inode: u32 = dwarfs_ino(ino)?;
    let mut buf: Vec<u8> = vec![0u8; size as usize];
    match fs.read_into(inode, offset, buf.as_mut_slice(), cache) {
        Ok(written) => {
            buf.truncate(written);
            proof {
                if agrees(old(cache)@, fs@) {
                    let bytes = fs@.read(inode, offset, size as nat)->Ok_0;
                    assert(buf@ =~= bytes);
                }
            }
            Ok(buf)
        },
        Err(_) => Err(Failure::Io),
    }
}

/// How requests are refused: a number that no inode has, or a name that is
/// not in the directory, is no entry; items of anything but a directory are
/// refused as of none; and a target of anything but a symlink is invalid.
pub proof fn lemma_refused_requests(v: TreeView, ino: u64, name: Seq<u8>, offset: u64)
    ensures
        ino == 0 || ino > 0x1_0000_0000 ==> lookup_reply(v, ino, name) == Err::<Attr, Failure>(
            Failure::NoEntry,
        ) && readlink_reply(v, ino) == Err::<Seq<u8>, Failure>(Failure::NoEntry) && readdir_reply(
            v,
            ino,
            offset,
        ) == Err::<Seq<DirItemView>, Failure>(Failure::NoEntry),
        1 <= ino <= 0x1_0000_0000 ==> {
            let inode = (ino - 1) as u32;
            &&& v.lookup_child(inode, name) is Err || v.lookup_child(inode, name) == Ok::<
                Option<u32>,
                ErrorView,
            >(None) ==> lookup_reply(v, ino, name) == Err::<Attr, Failure>(Failure::NoEntry)
            &&& v.lookup_child(inode, name) matches Ok(Some(child)) ==> (v.stat(child) is Err
                ==> lookup_reply(v, ino, name) == Err::<Attr, Failure>(Failure::Io))
            &&& v.kind(inode) is Ok && v.kind(inode)->Ok_0 != InodeKind::Directory
                ==> readdir_reply(v, ino, offset) == Err::<Seq<DirItemView>, Failure>(
                Failure::NotDirectory,
            )
            &&& v.kind(inode) is Ok && v.kind(inode)->Ok_0 != InodeKind::Symlink
                ==> readlink_reply(v, ino) == Err::<Seq<u8>, Failure>(Failure::Invalid)
        },
{
}

/// A read of a number that no inode has is no entry, and one that the image
/// cannot serve is an I/O failure.
pub proof fn lemma_refused_reads(v: FsView, ino: u64, offset: u64, size: u32, f: Failure)
    requires
        read_reply(v, true, ino, offset, size, Err(f)),
    ensures
        ino == 0 || ino > 0x1_0000_0000 ==> f == Failure::NoEntry,
        1 <= ino <= 0x1_0000_0000 ==> f == Failure::Io && v.read(
            (ino - 1) as u32,
            offset,
            size as nat,
        ) is Err,
{
}

} // verus!
