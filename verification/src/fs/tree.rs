//! The directory tree and the files of an image, as its tables give them.

use crate::bytes::same_bytes;
use crate::collect::{collect, collect_from, lemma_collect_ok};
use crate::error::{Error, ErrorView, viewed};
use crate::fs::chunks::{
    HoleRules, build_chunk_ends, chunk_ends, chunk_range_error, corrupt, ends_hold, fs_error,
    lemma_chunk_ends_hold, lemma_table_sorted,
};
use crate::fs::inode::{InodeKind, kind_of_mode, mode_kind};
use crate::fs::offsets::{
    Class, InodeOffsets, compute_offsets, lemma_class_start, lemma_offsets_ordered,
    mode_index_error, offsets_of,
};
use crate::fs::tables::{Tables, TablesView};
use crate::metadata::model::{DirEntry, Directory, InodeData};
use crate::metadata::root::texts;
use crate::text::{Text, dec};
use crate::utf8::{debug_text, debug_text_of, lossy_of, lossy_text};
use vstd::prelude::*;

verus! {

/// Per-inode stat snapshot.
#[derive(Debug, Clone, Copy)]
pub struct Stat {
    /// Inode number.
    pub inode: u32,
    /// Inode kind derived from its Unix mode.
    pub kind: InodeKind,
    /// Raw Unix mode (includes type and permission bits).
    pub mode: u32,
    /// Owner user id.
    pub uid: u32,
    /// Owning group id.
    pub gid: u32,
    /// Modification time as `timestamp_base + mtime_offset * resolution`.
    pub mtime: u64,
    /// Access time, computed the same way. Equal to `mtime` when the
    /// image records only modification times.
    pub atime: u64,
    /// Status-change time, computed the same way. Equal to `mtime`
    /// when the image records only modification times.
    pub ctime: u64,
    /// File size in bytes (0 for non-regular files).
    pub size: u64,
    /// Number of hardlinks. `1` when the image does not carry
    /// `inodes_have_nlink`; the real link count when it does.
    pub nlink: u32,
    /// Encoded `(major << 32) | minor` device number for block /
    /// character device inodes; `0` for all other kinds.
    pub rdev: u64,
}

impl View for Stat {
    type V = Stat;

    open spec fn view(&self) -> Stat {
        *self
    }
}

/// A node returned by [`Tree::lookup`].
#[derive(Debug, Clone, Copy)]
pub struct Node {
    /// Inode number.
    pub inode: u32,
    /// Inode kind.
    pub kind: InodeKind,
}

impl View for Node {
    type V = Node;

    open spec fn view(&self) -> Node {
        *self
    }
}

/// One entry of a directory listing.
#[derive(Debug)]
pub struct Listing {
    /// Inode the entry points at.
    pub inode: u32,
    /// Inode kind of the target.
    pub kind: InodeKind,
    /// Entry name as raw bytes (DwarFS names are arbitrary byte
    /// sequences, not always UTF-8).
    pub name: Vec<u8>,
}

/// What a [`Listing`] says.
#[verifier::ext_equal]
pub struct ListingView {
    pub inode: u32,
    pub kind: InodeKind,
    pub name: Seq<u8>,
}

impl View for Listing {
    type V = ListingView;

    open spec fn view(&self) -> ListingView {
        ListingView { inode: self.inode, kind: self.kind, name: self.name@ }
    }
}

impl Clone for Listing {
    fn clone(&self) -> (r: Self)
        ensures
            r@ == self@,
    {
        let name: Vec<u8> = self.name.clone();
        assert(name@ == self.name@);
        Listing { inode: self.inode, kind: self.kind, name }
    }
}

/// The listings behind a vector.
pub open spec fn listings(v: Seq<Listing>) -> Seq<ListingView> {
    v.map_values(|l: Listing| l@)
}

/// The tables of an image with what is computed from them at open.
#[verifier::ext_equal]
pub struct TreeView {
    pub tables: TablesView,
    pub offsets: InodeOffsets,
    /// Logical end offset of each chunk within the file that owns it.
    pub chunk_end: Seq<u64>,
}

/// What building a tree over tables answers.
#[verifier::opaque]
pub open spec fn tree_of(t: TablesView) -> Result<TreeView, ErrorView> {
    match offsets_of(t.inodes, t.modes, t.shared_files.len()) {
        Err(e) => Err(e),
        Ok(offsets) => match chunk_ends(hole_rules(t), t.chunks, t.chunk_table) {
            Err(e) => Err(e),
            Ok(chunk_end) => Ok(TreeView { tables: t, offsets, chunk_end }),
        },
    }
}

/// What the length of a chunk depends on.
pub open spec fn hole_rules(t: TablesView) -> HoleRules {
    HoleRules {
        hole_block_index: t.hole_block_index,
        block_size: t.block_size,
        large_hole_size: t.large_hole_size,
    }
}

/// A time recorded as an offset.
pub open spec fn time_of(base: u64, resolution: u64, offset: u64) -> Result<u64, ErrorView> {
    if offset * resolution > u64::MAX {
        Err(fs_error("time resolution multiplication overflows"@))
    } else if base + offset * resolution > u64::MAX {
        Err(fs_error("timestamp exceeds u64"@))
    } else {
        Ok((base + offset * resolution) as u64)
    }
}

/// The complaint about an index outside a table.
pub open spec fn index_error(what: Seq<char>, index: nat) -> ErrorView {
    fs_error(what + " index "@ + dec(index) + " out of range"@)
}

/// The complaint about an inode of the wrong kind.
pub open spec fn not_a(inode: u32, what: Seq<char>) -> ErrorView {
    fs_error("inode "@ + dec(inode as nat) + " is not a "@ + what)
}

/// The non-empty components of a path, split at every `/`.
pub open spec fn components(path: Seq<u8>) -> Seq<Seq<u8>>
    decreases path.len(),
{
    if path.len() == 0 {
        Seq::empty()
    } else if path[0] == 0x2f {
        components(path.skip(1))
    } else {
        let n = component_len(path);
        proof {
            lemma_component_len(path);
        }
        seq![path.take(n as int)] + components(path.skip(n as int))
    }
}

/// The number of bytes before the first `/`, at least one where the path
/// does not start with `/`.
pub open spec fn component_len(path: Seq<u8>) -> nat
    decreases path.len(),
{
    if path.len() == 0 || path[0] == 0x2f {
        0
    } else {
        1 + component_len(path.skip(1))
    }
}

/// A component is no longer than the path it starts.
pub proof fn lemma_component_len(path: Seq<u8>)
    ensures
        component_len(path) <= path.len(),
    decreases path.len(),
{
    if path.len() > 0 && path[0] != 0x2f {
        lemma_component_len(path.skip(1));
    }
}

/// The distinct elements of `names[i..]` that are not in `seen`, in order,
/// after `seen`.
pub open spec fn distinct_from(names: Seq<Seq<char>>, i: nat, seen: Seq<Seq<char>>) -> Seq<
    Seq<char>,
>
    decreases names.len() - i,
{
    if i >= names.len() {
        seen
    } else {
        distinct_from(
            names,
            i + 1,
            if seen.contains(names[i as int]) {
                seen
            } else {
                seen.push(names[i as int])
            },
        )
    }
}

/// Distinct names hold every name once and nothing else.
pub proof fn lemma_distinct(names: Seq<Seq<char>>, i: nat, seen: Seq<Seq<char>>)
    requires
        seen.no_duplicates(),
    ensures
        distinct_from(names, i, seen).no_duplicates(),
        forall|x: Seq<char>| #[trigger]
            distinct_from(names, i, seen).contains(x) <==> seen.contains(x) || exists|j: int|
                i <= j < names.len() && names[j] == x,
    decreases names.len() - i,
{
    if i < names.len() {
        let next = if seen.contains(names[i as int]) {
            seen
        } else {
            seen.push(names[i as int])
        };
        assert forall|x: Seq<char>| #[trigger] next.contains(x) <==> seen.contains(x) || x
            == names[i as int] by {
            if seen.contains(x) {
                let k = seen.index_of(x);
                assert(next[k] == x);
            }
            if x == names[i as int] && !seen.contains(x) {
                assert(next[seen.len() as int] == x);
            }
        }
        lemma_distinct(names, i + 1, next);
        assert forall|x: Seq<char>| #[trigger]
            distinct_from(names, i, seen).contains(x) <==> seen.contains(x) || exists|j: int|
                i <= j < names.len() && names[j] == x by {
            assert(next.contains(x) <==> seen.contains(x) || x == names[i as int]);
            if exists|j: int| i <= j < names.len() && names[j] == x {
                let j = choose|j: int| i <= j < names.len() && names[j] == x;
                if j > i {
                    assert(i + 1 <= j && names[j] == x);
                }
            }
        }
    }
}

/// The index of the first element from `i` on that has a value.
pub open spec fn first_from(s: Seq<u32>, value: u32, i: nat) -> nat
    decreases s.len() - i,
{
    if i >= s.len() || s[i as int] == value {
        i
    } else {
        first_from(s, value, i + 1)
    }
}

proof fn lemma_first_from(s: Seq<u32>, value: u32, i: nat, k: nat)
    requires
        i <= k < s.len(),
        s[k as int] == value,
        forall|j: int| i <= j < k ==> #[trigger] s[j] != value,
    ensures
        first_from(s, value, i) == k,
    decreases k - i,
{
    if i < k {
        assert(s[i as int] != value);
        lemma_first_from(s, value, i + 1, k);
    }
}

proof fn lemma_first_from_at_most(s: Seq<u32>, value: u32, i: nat, k: nat)
    requires
        i <= k < s.len(),
        s[k as int] == value,
    ensures
        i <= first_from(s, value, i) <= k,
        s[first_from(s, value, i) as int] == value,
    decreases k - i,
{
    if s[i as int] != value {
        lemma_first_from_at_most(s, value, i + 1, k);
    }
}

impl TreeView {
    /// The tree is what its tables make it.
    pub open spec fn consistent(self) -> bool {
        &&& self.tables.inodes.len() <= u32::MAX
        &&& self.tables.dir_entries.len() <= u32::MAX
        &&& tree_of(self.tables) == Ok::<TreeView, ErrorView>(self)
    }

    /// The mode recorded at an index.
    pub open spec fn mode_at(self, index: u32) -> Result<u32, ErrorView> {
        if index < self.tables.modes.len() {
            Ok(self.tables.modes[index as int])
        } else {
            Err(mode_index_error(index))
        }
    }

    /// The complaint about an inode number past the last inode.
    pub open spec fn inode_error(self, inode: u32) -> ErrorView {
        fs_error(
            "inode "@ + dec(inode as nat) + " out of "@ + dec(self.tables.inodes.len())
                + " entries"@,
        )
    }

    /// The mode of an inode.
    pub open spec fn mode_of(self, inode: u32) -> Result<u32, ErrorView> {
        if inode < self.tables.inodes.len() {
            self.mode_at(self.tables.inodes[inode as int].mode_index)
        } else {
            Err(self.inode_error(inode))
        }
    }

    /// The kind of an inode.
    pub open spec fn kind(self, inode: u32) -> Result<InodeKind, ErrorView> {
        match self.mode_of(inode) {
            Err(e) => Err(e),
            Ok(mode) => Ok(kind_of_mode(mode)),
        }
    }

    /// The device number of an inode.
    pub open spec fn device_rdev(self, inode: u32) -> Result<u64, ErrorView> {
        match self.kind(inode) {
            Err(e) => Err(e),
            Ok(kind) => if !kind.is_device() {
                Err(not_a(inode, "device"@))
            } else if inode < self.offsets.device_offset {
                Err(fs_error("device inode "@ + dec(inode as nat) + " precedes device offset"@))
            } else {
                let index = (inode - self.offsets.device_offset) as nat;
                if index < self.tables.devices.len() {
                    Ok(self.tables.devices[index as int])
                } else {
                    Err(index_error("device"@, index))
                }
            },
        }
    }

    /// The target of a symlink.
    pub open spec fn read_link(self, inode: u32) -> Result<Seq<u8>, ErrorView> {
        match self.kind(inode) {
            Err(e) => Err(e),
            Ok(kind) => if kind != InodeKind::Symlink {
                Err(not_a(inode, "symlink"@))
            } else {
                let slot = inode - self.offsets.symlink_offset;
                if slot >= self.tables.symlink_table.len() {
                    Err(index_error("symlink_table"@, slot as nat))
                } else {
                    let target = self.tables.symlink_table[slot];
                    if target >= self.tables.symlinks.len() {
                        Err(index_error("symlinks"@, target as nat))
                    } else {
                        Ok(self.tables.symlinks[target as int])
                    }
                }
            },
        }
    }

    /// The slot of the chunk table that holds a file's chunks. Files that
    /// share their contents share a slot.
    pub open spec fn slot(self, inode: u32) -> Result<nat, ErrorView> {
        if inode < self.offsets.shared_file_offset {
            if inode < self.offsets.file_offset {
                Err(not_a(inode, "regular file"@))
            } else {
                Ok((inode - self.offsets.file_offset) as nat)
            }
        } else {
            let index = (inode - self.offsets.shared_file_offset) as nat;
            if index >= self.tables.shared_files.len() {
                Err(index_error("shared_files"@, index))
            } else {
                Ok(
                    (self.offsets.shared_file_offset - self.offsets.file_offset
                        + self.tables.shared_files[index as int]) as nat,
                )
            }
        }
    }

    /// The chunks of a file.
    pub open spec fn chunk_range(self, inode: u32) -> Result<(nat, nat), ErrorView> {
        match self.slot(inode) {
            Err(e) => Err(e),
            Ok(slot) => if slot + 1 >= self.tables.chunk_table.len() {
                Err(index_error("chunk_table"@, slot))
            } else {
                let start = self.tables.chunk_table[slot as int] as nat;
                let end = self.tables.chunk_table[slot as int + 1] as nat;
                if end < start || end > self.tables.chunks.len() {
                    Err(chunk_range_error(start, end, self.tables.chunks.len()))
                } else {
                    Ok((start, end))
                }
            },
        }
    }

    /// The size of a file.
    pub open spec fn file_size(self, inode: u32) -> Result<u64, ErrorView> {
        match self.kind(inode) {
            Err(e) => Err(e),
            Ok(kind) => if kind != InodeKind::Regular {
                Ok(0)
            } else {
                match self.chunk_range(inode) {
                    Err(e) => Err(e),
                    Ok((start, end)) => if start < end {
                        Ok(self.chunk_end[end - 1])
                    } else {
                        Ok(0)
                    },
                }
            },
        }
    }

    /// The block of a file's first chunk.
    pub open spec fn first_block(self, inode: u32) -> Option<u32> {
        match self.chunk_range(inode) {
            Err(_) => None,
            Ok((start, end)) => if start < end {
                Some(self.tables.chunks[start as int].block)
            } else {
                None
            },
        }
    }

    /// The lowest slot of the chunk table with the same chunks. Only slots
    /// without chunks can have another one before them.
    pub open spec fn content_slot(self, slot: nat) -> nat {
        let table = self.tables.chunk_table;
        if slot + 1 < table.len() && table[slot as int] == table[slot as int + 1] {
            first_from(table, table[slot as int], 0)
        } else {
            slot
        }
    }

    /// The identity of a file's contents: the lowest slot of the chunk
    /// table with its chunks.
    pub open spec fn content_id(self, inode: u32) -> Result<u32, ErrorView> {
        match self.slot(inode) {
            Err(e) => Err(e),
            Ok(slot) => if self.content_slot(slot) > u32::MAX {
                Err(fs_error("content id "@ + dec(self.content_slot(slot)) + " exceeds u32"@))
            } else {
                Ok(self.content_slot(slot) as u32)
            },
        }
    }

    /// What an inode's attributes are.
    pub open spec fn stat(self, inode: u32) -> Result<Stat, ErrorView> {
        if inode >= self.tables.inodes.len() {
            Err(self.inode_error(inode))
        } else {
            let info = self.tables.inodes[inode as int];
            match self.mode_at(info.mode_index) {
                Err(e) => Err(e),
                Ok(mode) => if info.owner_index >= self.tables.uids.len() {
                    Err(index_error("uid"@, info.owner_index as nat))
                } else if info.group_index >= self.tables.gids.len() {
                    Err(index_error("gid"@, info.group_index as nat))
                } else {
                    match self.times(info) {
                        Err(e) => Err(e),
                        Ok((mtime, atime, ctime)) => match self.file_size(inode) {
                            Err(e) => Err(e),
                            Ok(size) => Ok(
                                Stat {
                                    inode,
                                    kind: kind_of_mode(mode),
                                    mode,
                                    uid: self.tables.uids[info.owner_index as int],
                                    gid: self.tables.gids[info.group_index as int],
                                    mtime,
                                    atime,
                                    ctime,
                                    size,
                                    nlink: self.nlink(info),
                                    rdev: match self.device_rdev(inode) {
                                        Ok(rdev) => rdev,
                                        Err(_) => 0,
                                    },
                                },
                            ),
                        },
                    }
                },
            }
        }
    }

    /// The number of links to an inode.
    pub open spec fn nlink(self, info: InodeData) -> u32 {
        if !self.tables.options.inodes_have_nlink {
            1
        } else if info.nlink_minus_one == u32::MAX {
            u32::MAX
        } else {
            (info.nlink_minus_one + 1) as u32
        }
    }

    /// The seconds that one unit of a recorded time stands for.
    pub open spec fn resolution(self) -> u64 {
        match self.tables.options.time_resolution_sec {
            Some(r) => r as u64,
            None => 1,
        }
    }

    /// Modification, access and change time of an inode. An image that
    /// records only modification times has the others equal to it.
    pub open spec fn times(self, info: InodeData) -> Result<(u64, u64, u64), ErrorView> {
        let base = self.tables.timestamp_base;
        match time_of(base, self.resolution(), info.mtime_offset) {
            Err(e) => Err(e),
            Ok(mtime) => if self.tables.options.mtime_only {
                Ok((mtime, mtime, mtime))
            } else {
                match time_of(base, self.resolution(), info.atime_offset) {
                    Err(e) => Err(e),
                    Ok(atime) => match time_of(base, self.resolution(), info.ctime_offset) {
                        Err(e) => Err(e),
                        Ok(ctime) => Ok((mtime, atime, ctime)),
                    },
                }
            },
        }
    }

    /// The entries of a directory.
    pub open spec fn dir_range(self, inode: u32) -> Result<(nat, nat), ErrorView> {
        let dirs = self.tables.directories;
        let entries = self.tables.dir_entries.len();
        if inode >= dirs.len() {
            Err(
                fs_error(
                    "directory inode "@ + dec(inode as nat) + " out of "@ + dec(dirs.len())
                        + " entries"@,
                ),
            )
        } else {
            let begin = dirs[inode as int].first_entry as nat;
            let end = if inode + 1 < dirs.len() {
                dirs[inode + 1].first_entry as nat
            } else {
                entries
            };
            if end > entries || begin > end {
                Err(
                    fs_error(
                        "directory entry range ["@ + dec(begin) + ", "@ + dec(end) + ") out of "@
                            + dec(entries) + " entries"@,
                    ),
                )
            } else {
                Ok((begin, end))
            }
        }
    }

    /// The name of a directory entry.
    pub open spec fn entry_name(self, i: int) -> Result<Seq<u8>, ErrorView> {
        let index = self.tables.dir_entries[i].name_index;
        if index < self.tables.names.len() {
            Ok(self.tables.names[index as int])
        } else {
            Err(index_error("name"@, index as nat))
        }
    }

    /// The listing of entry `begin + i`.
    pub open spec fn listing_at(self, begin: nat) -> spec_fn(nat) -> Result<
        ListingView,
        ErrorView,
    > {
        |i: nat|
            match self.entry_name(begin as int + i) {
                Err(e) => Err(e),
                Ok(name) => {
                    let inode = self.tables.dir_entries[begin as int + i].inode_num;
                    match self.kind(inode) {
                        Err(e) => Err(e),
                        Ok(kind) => Ok(ListingView { inode, kind, name }),
                    }
                },
            }
    }

    /// The listing of a directory, in the order of its entries.
    pub open spec fn read_dir(self, inode: u32) -> Result<Seq<ListingView>, ErrorView> {
        match self.kind(inode) {
            Err(e) => Err(e),
            Ok(kind) => if kind != InodeKind::Directory {
                Err(not_a(inode, "directory"@))
            } else {
                match self.dir_range(inode) {
                    Err(e) => Err(e),
                    Ok((begin, end)) => collect((end - begin) as nat, self.listing_at(begin)),
                }
            },
        }
    }

    /// The parent of a directory.
    pub open spec fn parent(self, inode: u32) -> Result<u32, ErrorView> {
        match self.kind(inode) {
            Err(e) => Err(e),
            Ok(kind) => if kind != InodeKind::Directory {
                Err(not_a(inode, "directory"@))
            } else if inode >= self.tables.directories.len() {
                Err(fs_error("directory inode "@ + dec(inode as nat) + " out of range"@))
            } else {
                let entry = self.tables.directories[inode as int].parent_entry;
                if entry >= self.tables.dir_entries.len() {
                    Err(fs_error("parent entry "@ + dec(entry as nat) + " out of range"@))
                } else {
                    Ok(self.tables.dir_entries[entry as int].inode_num)
                }
            },
        }
    }

    /// The inode that the first of entries `i..end` with a name has.
    pub open spec fn find_entry(self, name: Seq<u8>, i: int, end: int) -> Result<
        Option<u32>,
        ErrorView,
    >
        decreases end - i,
    {
        if i >= end {
            Ok(None)
        } else {
            match self.entry_name(i) {
                Err(e) => Err(e),
                Ok(found) => if found == name {
                    Ok(Some(self.tables.dir_entries[i].inode_num))
                } else {
                    self.find_entry(name, i + 1, end)
                },
            }
        }
    }

    /// The inode that a directory's entry with a name has.
    pub open spec fn lookup_child(self, dir: u32, name: Seq<u8>) -> Result<
        Option<u32>,
        ErrorView,
    > {
        match self.dir_range(dir) {
            Err(e) => Err(e),
            Ok((begin, end)) => self.find_entry(name, begin as int, end as int),
        }
    }

    /// What following the components of a path from `inode` answers.
    pub open spec fn follow(self, path: Seq<Seq<u8>>, i: int, inode: u32) -> Result<
        Node,
        ErrorView,
    >
        decreases path.len() - i,
    {
        match self.kind(inode) {
            Err(e) => Err(e),
            Ok(kind) => if i >= path.len() {
                Ok(Node { inode, kind })
            } else if kind != InodeKind::Directory {
                Err(
                    fs_error(
                        "component "@ + debug_text_of(lossy_of(path[i]))
                            + " not under directory"@,
                    ),
                )
            } else {
                match self.lookup_child(inode, path[i]) {
                    Err(e) => Err(e),
                    Ok(None) => Err(
                        fs_error(
                            "no entry "@ + debug_text_of(lossy_of(path[i])) + " in inode "@ + dec(
                                inode as nat,
                            ),
                        ),
                    ),
                    Ok(Some(child)) => self.follow(path, i + 1, child),
                }
            },
        }
    }

    /// The node that a path leads to from the root.
    pub open spec fn lookup(self, path: Seq<u8>) -> Result<Node, ErrorView> {
        self.follow(components(path), 0, 0)
    }
}

/// The chunk table of a tree is in order.
pub proof fn lemma_chunk_table_ascends(v: TreeView, a: int, b: int)
    requires
        v.consistent(),
        0 <= a <= b < v.tables.chunk_table.len(),
    ensures
        v.tables.chunk_table[a] <= v.tables.chunk_table[b],
{
    let t = v.tables;
    reveal(tree_of);
    lemma_chunk_ends_hold(hole_rules(t), t.chunks, t.chunk_table);
    reveal(ends_hold);
    lemma_table_sorted(t.chunks, t.chunk_table, a, b, t.chunk_table.len() as int);
}

proof fn lemma_content_slot(v: TreeView, slot: nat)
    requires
        v.consistent(),
        slot + 1 < v.tables.chunk_table.len(),
    ensures
        v.content_slot(slot) <= slot,
        v.tables.chunk_table[v.content_slot(slot) as int] == v.tables.chunk_table[slot as int],
        v.tables.chunk_table[v.content_slot(slot) as int + 1] == v.tables.chunk_table[slot as int
            + 1],
{
    let table = v.tables.chunk_table;
    if table[slot as int] == table[slot as int + 1] {
        lemma_first_from_at_most(table, table[slot as int], 0, slot);
        let k = v.content_slot(slot) as int;
        lemma_chunk_table_ascends(v, k, k + 1);
        lemma_chunk_table_ascends(v, k + 1, slot as int + 1);
    }
}

proof fn lemma_same_slots(v: TreeView, x: nat, y: nat)
    requires
        v.consistent(),
        x < y,
        y + 1 < v.tables.chunk_table.len(),
        v.tables.chunk_table[x as int] == v.tables.chunk_table[y as int],
        v.tables.chunk_table[x as int + 1] == v.tables.chunk_table[y as int + 1],
    ensures
        v.tables.chunk_table[x as int] == v.tables.chunk_table[x as int + 1],
{
    lemma_chunk_table_ascends(v, x as int, x as int + 1);
    lemma_chunk_table_ascends(v, x as int + 1, y as int);
}

/// Files have the same content id exactly when they have the same chunks.
pub proof fn lemma_content_id_goes_by_chunks(v: TreeView, a: u32, b: u32)
    requires
        v.consistent(),
        v.chunk_range(a) is Ok,
        v.chunk_range(b) is Ok,
    ensures
        v.chunk_range(a) == v.chunk_range(b) ==> v.content_id(a) == v.content_id(b),
        v.content_id(a) is Ok && v.content_id(a) == v.content_id(b) ==> v.chunk_range(a)
            == v.chunk_range(b),
{
    let x = v.slot(a)->Ok_0;
    let y = v.slot(b)->Ok_0;
    lemma_content_slot(v, x);
    lemma_content_slot(v, y);
    if v.chunk_range(a) == v.chunk_range(b) && x != y {
        if x < y {
            lemma_same_slots(v, x, y);
        } else {
            lemma_same_slots(v, y, x);
        }
    }
}

/// Files with the same content id have the same chunks, if they have any,
/// and the same first block.
pub proof fn lemma_same_content_id_same_chunks(v: TreeView, a: u32, b: u32)
    requires
        v.consistent(),
        v.content_id(a) is Ok,
        v.content_id(a) == v.content_id(b),
    ensures
        v.chunk_range(a) == v.chunk_range(b),
        v.first_block(a) == v.first_block(b),
{
    let x = v.slot(a)->Ok_0;
    let y = v.slot(b)->Ok_0;
    if x + 1 < v.tables.chunk_table.len() {
        lemma_content_slot(v, x);
        lemma_chunk_table_ascends(v, x as int, x as int + 1);
    }
    if y + 1 < v.tables.chunk_table.len() {
        lemma_content_slot(v, y);
        lemma_chunk_table_ascends(v, y as int, y as int + 1);
    }
}

/// A listing has no more entries than there are directory entries.
pub proof fn lemma_listing_len(v: TreeView, inode: u32)
    requires
        v.read_dir(inode) is Ok,
    ensures
        v.read_dir(inode)->Ok_0.len() <= v.tables.dir_entries.len(),
{
    let (begin, end) = v.dir_range(inode)->Ok_0;
    lemma_collect_ok((end - begin) as nat, v.listing_at(begin));
}

/// Split a path at every `/`, dropping empty components.
pub fn split_path(path: &[u8]) -> (r: Vec<&[u8]>)
    ensures
        r@.map_values(|c: &[u8]| c@) == components(path@),
{
    let mut out: Vec<&[u8]> = Vec::new();
    let ghost view = |c: &[u8]| c@;
    assert(out@.map_values(view) =~= Seq::<Seq<u8>>::empty());
    assert(path@.skip(0) =~= path@);
    assert(Seq::<Seq<u8>>::empty() + components(path@) =~= components(path@));
    let mut i: usize = 0;
    while i < path.len()
        invariant
            i <= path@.len(),
            view == (|c: &[u8]| c@),
            components(path@) == out@.map_values(view) + components(path@.skip(i as int)),
        decreases path@.len() - i,
    {
        let ghost rest = path@.skip(i as int);
        if path[i] == 0x2f {
            assert(rest.skip(1) =~= path@.skip(i + 1));
            i = i + 1;
        } else {
            let start: usize = i;
            assert(path@.skip(i as int) =~= rest.skip(0));
            while i < path.len() && path[i] != 0x2f
                invariant
                    start <= i <= path@.len(),
                    rest == path@.skip(start as int),
                    component_len(rest) == (i - start) + component_len(path@.skip(i as int)),
                decreases path@.len() - i,
            {
                assert(path@.skip(i as int).skip(1) =~= path@.skip(i + 1));
                i = i + 1;
            }
            let component: &[u8] = vstd::slice::slice_subrange(path, start, i);
            let ghost before = out@;
            out.push(component);
            assert(out@.map_values(view) =~= before.map_values(view).push(component@));
            assert(component@ =~= rest.take(i - start));
            assert(rest.skip(i - start) =~= path@.skip(i as int));
            assert(before.map_values(view) + (seq![component@] + components(path@.skip(i as int)))
                =~= before.map_values(view).push(component@) + components(path@.skip(i as int)));
        }
    }
    assert(path@.skip(i as int) =~= Seq::<u8>::empty());
    assert(out@.map_values(view) =~= out@.map_values(view) + Seq::<Seq<u8>>::empty());
    out
}

/// The directory tree and the files of an image. Construction computes
/// the inode partitions and the end offset of every chunk.
#[derive(Debug)]
pub struct Tree {
    tables: Tables,
    offsets: InodeOffsets,
    /// Logical end offset of each chunk within the file that owns it,
    /// parallel to the chunks. Lets a read find its starting chunk by
    /// binary search instead of walking the file from byte zero.
    chunk_end: Vec<u64>,
}

impl View for Tree {
    type V = TreeView;

    closed spec fn view(&self) -> TreeView {
        TreeView { tables: self.tables@, offsets: self.offsets, chunk_end: self.chunk_end@ }
    }
}

fn index_out_of_range(what: &str, index: u64) -> (e: Error)
    ensures
        e@ == index_error(what@, index as nat),
{
    corrupt(Text::of(what).str(" index ").num(index).str(" out of range"))
}

fn wrong_kind(inode: u32, what: &str) -> (e: Error)
    ensures
        e@ == not_a(inode, what@),
{
    corrupt(Text::of("inode ").num(inode as u64).str(" is not a ").str(what))
}

impl Tree {
    /// The tree is what its tables make it.
    #[verifier::type_invariant]
    closed spec fn wf(&self) -> bool {
        self@.consistent()
    }

    /// Build the tree over unpacked tables.
    pub fn build(tables: Tables) -> (r: Result<Tree, Error>)
        requires
            tables@.inodes.len() <= u32::MAX,
            tables@.dir_entries.len() <= u32::MAX,
        ensures
            viewed(r) == tree_of(tables@),
            r matches Ok(t) ==> t@.consistent(),
    {
        proof {
            reveal(tree_of);
        }
        let offsets: InodeOffsets = compute_offsets(
            tables.inodes.as_slice(),
            tables.modes.as_slice(),
            tables.shared_files.len(),
        )?;
        let chunk_end: Vec<u64> = build_chunk_ends(
            tables.chunks.as_slice(),
            tables.chunk_table.as_slice(),
            tables.hole_block_index,
            tables.block_size,
            tables.large_hole_size.as_slice(),
        )?;
        Ok(Tree { tables, offsets, chunk_end })
    }

    /// The decoded tables.
    pub fn tables(&self) -> (r: &Tables)
        ensures
            r@ == self@.tables,
            self@.consistent(),
    {
        proof {
            use_type_invariant(self);
        }
        &self.tables
    }

    /// Inode-type boundaries.
    pub fn offsets(&self) -> (r: InodeOffsets)
        ensures
            r == self@.offsets,
    {
        self.offsets
    }

    /// Logical end offset of each chunk within the file that owns it.
    pub fn chunk_end(&self) -> (r: &[u64])
        ensures
            r@ == self@.chunk_end,
    {
        self.chunk_end.as_slice()
    }

    fn mode_at(&self, mode_index: u32) -> (r: Result<u32, Error>)
        ensures
            viewed(r) == self@.mode_at(mode_index),
    {
        if (mode_index as usize) < self.tables.modes.len() {
            Ok(self.tables.modes[mode_index as usize])
        } else {
            Err(corrupt(Text::of("mode index ").num(mode_index as u64).str(" out of range")))
        }
    }

    fn inode_out_of_range(&self, inode: u32) -> (e: Error)
        ensures
            e@ == self@.inode_error(inode),
    {
        corrupt(
            Text::of("inode ").num(inode as u64).str(" out of ").num(
                self.tables.inodes.len() as u64,
            ).str(" entries"),
        )
    }

    fn mode_of(&self, inode: u32) -> (r: Result<u32, Error>)
        ensures
            viewed(r) == self@.mode_of(inode),
    {
        if inode as usize >= self.tables.inodes.len() {
            return Err(self.inode_out_of_range(inode));
        }
        self.mode_at(self.tables.inodes[inode as usize].mode_index)
    }

    /// Kind of an inode by number.
    pub fn kind(&self, inode: u32) -> (r: Result<InodeKind, Error>)
        ensures
            viewed(r) == self@.kind(inode),
    {
        let mode: u32 = self.mode_of(inode)?;
        Ok(mode_kind(mode))
    }

    /// Encoded `(major << 32) | minor` device number for a device
    /// inode. Returns an error if `inode` is not a block or character
    /// device.
    pub fn device_rdev(&self, inode: u32) -> (r: Result<u64, Error>)
        ensures
            viewed(r) == self@.device_rdev(inode),
    {
        let kind = self.kind(inode)?;
        if kind != InodeKind::BlockDevice && kind != InodeKind::CharDevice {
            return Err(wrong_kind(inode, "device"));
        }
        if inode < self.offsets.device_offset {
            return Err(
                corrupt(
                    Text::of("device inode ").num(inode as u64).str(" precedes device offset"),
                ),
            );
        }
        let idx: u32 = inode - self.offsets.device_offset;
        if (idx as usize) < self.tables.devices.len() {
            Ok(self.tables.devices[idx as usize])
        } else {
            Err(index_out_of_range("device", idx as u64))
        }
    }

    fn time_at(&self, offset: u64) -> (r: Result<u64, Error>)
        ensures
            viewed(r) == time_of(self@.tables.timestamp_base, self@.resolution(), offset),
    {
        let resolution: u64 = match self.tables.options.time_resolution_sec {
            Some(r) => r as u64,
            None => 1,
        };
        let scaled: u64 = match offset.checked_mul(resolution) {
            Some(s) => s,
            None => {
                return Err(corrupt(Text::of("time resolution multiplication overflows")));
            },
        };
        match self.tables.timestamp_base.checked_add(scaled) {
            Some(t) => Ok(t),
            None => Err(corrupt(Text::of("timestamp exceeds u64"))),
        }
    }

    /// Stat an inode.
    pub fn stat(&self, inode: u32) -> (r: Result<Stat, Error>)
        ensures
            viewed(r) == self@.stat(inode),
    {
        if inode as usize >= self.tables.inodes.len() {
            return Err(self.inode_out_of_range(inode));
        }
        let info: InodeData = self.tables.inodes[inode as usize];
        let mode: u32 = self.mode_at(info.mode_index)?;
        let kind = mode_kind(mode);
        if info.owner_index as usize >= self.tables.uids.len() {
            return Err(index_out_of_range("uid", info.owner_index as u64));
        }
        let uid: u32 = self.tables.uids[info.owner_index as usize];
        if info.group_index as usize >= self.tables.gids.len() {
            return Err(index_out_of_range("gid", info.group_index as u64));
        }
        let gid: u32 = self.tables.gids[info.group_index as usize];
        let mtime: u64 = self.time_at(info.mtime_offset)?;
        // An image that records only modification times leaves the
        // other offsets at zero; report mtime rather than the epoch.
        let (atime, ctime): (u64, u64) = if self.tables.options.mtime_only {
            (mtime, mtime)
        } else {
            (self.time_at(info.atime_offset)?, self.time_at(info.ctime_offset)?)
        };
        let size: u64 = if kind == InodeKind::Regular {
            self.file_size(inode)?
        } else {
            0
        };
        let nlink: u32 = if self.tables.options.inodes_have_nlink {
            info.nlink_minus_one.saturating_add(1)
        } else {
            1
        };
        let rdev: u64 = if kind == InodeKind::BlockDevice || kind == InodeKind::CharDevice {
            match self.device_rdev(inode) {
                Ok(rdev) => rdev,
                Err(_) => 0,
            }
        } else {
            0
        };
        Ok(Stat { inode, kind, mode, uid, gid, mtime, atime, ctime, size, nlink, rdev })
    }

    /// Symlink target as raw bytes. Errors if `inode` is not a symlink.
    pub fn read_link(&self, inode: u32) -> (r: Result<&[u8], Error>)
        ensures
            match r {
                Ok(target) => self@.read_link(inode) == Ok::<Seq<u8>, ErrorView>(target@),
                Err(e) => self@.read_link(inode) == Err::<Seq<u8>, ErrorView>(e@),
            },
    {
        proof {
            use_type_invariant(self);
            reveal(tree_of);
        }
        if self.kind(inode)? != InodeKind::Symlink {
            return Err(wrong_kind(inode, "symlink"));
        }
        proof {
            lemma_class_start(
                self@.tables.inodes,
                self@.tables.modes,
                Class::Symlink,
                inode as int,
            );
        }
        let slot: u32 = inode - self.offsets.symlink_offset;
        if slot as usize >= self.tables.symlink_table.len() {
            return Err(index_out_of_range("symlink_table", slot as u64));
        }
        let table_value: u32 = self.tables.symlink_table[slot as usize];
        if table_value as usize >= self.tables.symlinks.len() {
            return Err(index_out_of_range("symlinks", table_value as u64));
        }
        Ok(self.tables.symlinks[table_value as usize].as_slice())
    }

    fn chunk_table_slot(&self, inode: u32) -> (r: Result<u64, Error>)
        ensures
            match r {
                Ok(slot) => self@.slot(inode) == Ok::<nat, ErrorView>(slot as nat),
                Err(e) => self@.slot(inode) == Err::<nat, ErrorView>(e@),
            },
    {
        proof {
            use_type_invariant(self);
            reveal(tree_of);
            lemma_offsets_ordered(
                self@.tables.inodes,
                self@.tables.modes,
                self@.tables.shared_files.len(),
            );
        }
        let num_unique: u32 = self.offsets.shared_file_offset - self.offsets.file_offset;
        if inode < self.offsets.shared_file_offset {
            if inode < self.offsets.file_offset {
                return Err(wrong_kind(inode, "regular file"));
            }
            Ok((inode - self.offsets.file_offset) as u64)
        } else {
            let shared_slot: u32 = inode - self.offsets.shared_file_offset;
            if shared_slot as usize >= self.tables.shared_files.len() {
                return Err(index_out_of_range("shared_files", shared_slot as u64));
            }
            let group: u32 = self.tables.shared_files[shared_slot as usize];
            Ok(num_unique as u64 + group as u64)
        }
    }

    /// The chunks of a file, as a range of chunk indices.
    pub fn chunk_range(&self, inode: u32) -> (r: Result<(usize, usize), Error>)
        ensures
            match r {
                Ok((start, end)) => self@.chunk_range(inode) == Ok::<(nat, nat), ErrorView>(
                    (start as nat, end as nat),
                ) && start <= end <= self@.tables.chunks.len(),
                Err(e) => self@.chunk_range(inode) == Err::<(nat, nat), ErrorView>(e@),
            },
    {
        let slot: u64 = self.chunk_table_slot(inode)?;
        let len: usize = self.tables.chunk_table.len();
        if len < 2 || slot > (len - 2) as u64 {
            return Err(index_out_of_range("chunk_table", slot));
        }
        let i: usize = slot as usize;
        let start: usize = self.tables.chunk_table[i] as usize;
        let end: usize = self.tables.chunk_table[i + 1] as usize;
        if end < start || end > self.tables.chunks.len() {
            return Err(
                corrupt(
                    Text::of("chunk range [").num(start as u64).str(", ").num(end as u64).str(
                        ") out of ",
                    ).num(self.tables.chunks.len() as u64).str(" chunks"),
                ),
            );
        }
        Ok((start, end))
    }

    /// Total file size in bytes. Resolves through the shared-files table
    /// for shared files; hole chunks contribute their reconstructed
    /// length. Returns 0 for non-regular files.
    ///
    /// Constant time: the last chunk's cumulative end offset is the
    /// file size.
    pub fn file_size(&self, inode: u32) -> (r: Result<u64, Error>)
        ensures
            viewed(r) == self@.file_size(inode),
    {
        proof {
            use_type_invariant(self);
            reveal(tree_of);
            lemma_chunk_ends_hold(
                hole_rules(self@.tables),
                self@.tables.chunks,
                self@.tables.chunk_table,
            );
        }
        if self.kind(inode)? != InodeKind::Regular {
            return Ok(0);
        }
        let (start, end): (usize, usize) = self.chunk_range(inode)?;
        if start < end {
            Ok(self.chunk_end[end - 1])
        } else {
            Ok(0)
        }
    }

    /// Block holding the first chunk of a regular file, when it has
    /// one. Lets a bulk reader visit files in block order so a bounded
    /// cache sees each block once instead of once per file.
    pub fn first_block(&self, inode: u32) -> (r: Option<u32>)
        ensures
            r == self@.first_block(inode),
    {
        match self.chunk_range(inode) {
            Ok((start, end)) => if start < end {
                Some(self.tables.chunks[start].block)
            } else {
                None
            },
            Err(_) => None,
        }
    }

    /// Identity of a regular file's content for deduplication
    /// purposes. Inodes that share the same chunk range return the
    /// same value, regardless of whether they are unique or shared
    /// inodes in the DwarFS sense.
    pub fn content_id(&self, inode: u32) -> (r: Result<u32, Error>)
        ensures
            viewed(r) == self@.content_id(inode),
    {
        let slot: u64 = self.content_slot(self.chunk_table_slot(inode)?);
        if slot > u32::MAX as u64 {
            return Err(corrupt(Text::of("content id ").num(slot).str(" exceeds u32")));
        }
        Ok(slot as u32)
    }

    fn content_slot(&self, slot: u64) -> (r: u64)
        ensures
            r == self@.content_slot(slot as nat),
    {
        proof {
            use_type_invariant(self);
        }
        let ghost v = self@;
        let table: &Vec<u32> = &self.tables.chunk_table;
        let len: usize = table.len();
        if len < 2 || slot > (len - 2) as u64 {
            return slot;
        }
        let at: usize = slot as usize;
        let start: u32 = table[at];
        if table[at + 1] != start {
            return slot;
        }
        let mut lo: usize = 0;
        let mut hi: usize = at;
        while lo < hi
            invariant
                v.consistent(),
                table@ == v.tables.chunk_table,
                lo <= hi <= at < table@.len(),
                start == table@[at as int],
                table@[hi as int] == start,
                forall|j: int| 0 <= j < lo ==> #[trigger] table@[j] < start,
            decreases hi - lo,
        {
            let mid: usize = lo + (hi - lo) / 2;
            if table[mid] < start {
                proof {
                    assert forall|j: int| 0 <= j < mid + 1 implies #[trigger] table@[j] < start by {
                        lemma_chunk_table_ascends(v, j, mid as int);
                    }
                }
                lo = mid + 1;
            } else {
                proof {
                    lemma_chunk_table_ascends(v, mid as int, at as int);
                }
                hi = mid;
            }
        }
        proof {
            lemma_first_from(table@, start, 0, lo as nat);
        }
        lo as u64
    }

    fn dir_entry_range(&self, dir_inode: u32) -> (r: Result<(usize, usize), Error>)
        ensures
            match r {
                Ok((begin, end)) => self@.dir_range(dir_inode) == Ok::<(nat, nat), ErrorView>(
                    (begin as nat, end as nat),
                ) && begin <= end <= self@.tables.dir_entries.len(),
                Err(e) => self@.dir_range(dir_inode) == Err::<(nat, nat), ErrorView>(e@),
            },
    {
        let i: usize = dir_inode as usize;
        let count: usize = self.tables.directories.len();
        let entries: usize = self.tables.dir_entries.len();
        if i >= count {
            return Err(
                corrupt(
                    Text::of("directory inode ").num(dir_inode as u64).str(" out of ").num(
                        count as u64,
                    ).str(" entries"),
                ),
            );
        }
        let begin: usize = self.tables.directories[i].first_entry as usize;
        let end: usize = if i < count - 1 {
            self.tables.directories[i + 1].first_entry as usize
        } else {
            entries
        };
        if end > entries || begin > end {
            return Err(
                corrupt(
                    Text::of("directory entry range [").num(begin as u64).str(", ").num(
                        end as u64,
                    ).str(") out of ").num(entries as u64).str(" entries"),
                ),
            );
        }
        Ok((begin, end))
    }

    fn entry_name(&self, i: usize) -> (r: Result<&Vec<u8>, Error>)
        requires
            i < self@.tables.dir_entries.len(),
        ensures
            match r {
                Ok(name) => self@.entry_name(i as int) == Ok::<Seq<u8>, ErrorView>(name@),
                Err(e) => self@.entry_name(i as int) == Err::<Seq<u8>, ErrorView>(e@),
            },
    {
        let index: u32 = self.tables.dir_entries[i].name_index;
        if index as usize >= self.tables.names.len() {
            return Err(index_out_of_range("name", index as u64));
        }
        Ok(&self.tables.names[index as usize])
    }

    /// List the entries of a directory inode.
    pub fn read_dir(&self, inode: u32) -> (r: Result<Vec<Listing>, Error>)
        ensures
            match r {
                Ok(v) => self@.read_dir(inode) == Ok::<Seq<ListingView>, ErrorView>(listings(v@)),
                Err(e) => self@.read_dir(inode) == Err::<Seq<ListingView>, ErrorView>(e@),
            },
    {
        if self.kind(inode)? != InodeKind::Directory {
            return Err(wrong_kind(inode, "directory"));
        }
        let (begin, end): (usize, usize) = self.dir_entry_range(inode)?;
        let mut out: Vec<Listing> = Vec::new();
        assert(listings(out@) =~= Seq::<ListingView>::empty());
        let ghost get = self@.listing_at(begin as nat);
        let ghost want = self@.read_dir(inode);
        let mut i: usize = begin;
        while i < end
            invariant
                begin <= i <= end <= self@.tables.dir_entries.len(),
                get == self@.listing_at(begin as nat),
                want == self@.read_dir(inode),
                want == collect_from(
                    (end - begin) as nat,
                    (i - begin) as nat,
                    listings(out@),
                    get,
                ),
            decreases end - i,
        {
            let name: Vec<u8> = self.entry_name(i)?.clone();
            let de: DirEntry = self.tables.dir_entries[i];
            let kind = self.kind(de.inode_num)?;
            let item = Listing { inode: de.inode_num, kind, name };
            let ghost before = out@;
            out.push(item);
            assert(listings(out@) =~= listings(before).push(item@));
            i = i + 1;
        }
        Ok(out)
    }

    /// Parent directory of a directory inode. The root is its own
    /// parent.
    ///
    /// `directory.parent_entry` indexes the entry that names the parent
    /// in the grandparent, so the parent's inode number is read from
    /// that entry.
    pub fn parent(&self, inode: u32) -> (r: Result<u32, Error>)
        ensures
            viewed(r) == self@.parent(inode),
    {
        if self.kind(inode)? != InodeKind::Directory {
            return Err(wrong_kind(inode, "directory"));
        }
        if inode as usize >= self.tables.directories.len() {
            return Err(
                corrupt(Text::of("directory inode ").num(inode as u64).str(" out of range")),
            );
        }
        let entry: u32 = self.tables.directories[inode as usize].parent_entry;
        if entry as usize >= self.tables.dir_entries.len() {
            return Err(corrupt(Text::of("parent entry ").num(entry as u64).str(" out of range")));
        }
        Ok(self.tables.dir_entries[entry as usize].inode_num)
    }

    /// Inode of the entry called `name` in a directory, if there is one.
    pub fn lookup_child(&self, dir_inode: u32, name: &[u8]) -> (r: Result<Option<u32>, Error>)
        ensures
            viewed(r) == self@.lookup_child(dir_inode, name@),
    {
        let (begin, end): (usize, usize) = self.dir_entry_range(dir_inode)?;
        let mut i: usize = begin;
        while i < end
            invariant
                begin <= i <= end <= self@.tables.dir_entries.len(),
                self@.lookup_child(dir_inode, name@) == self@.find_entry(
                    name@,
                    i as int,
                    end as int,
                ),
            decreases end - i,
        {
            let entry_name: &Vec<u8> = self.entry_name(i)?;
            if same_bytes(entry_name.as_slice(), name) {
                return Ok(Some(self.tables.dir_entries[i].inode_num));
            }
            i = i + 1;
        }
        Ok(None)
    }

    /// Resolve a slash-separated path to an inode. Path is interpreted
    /// as `/`-rooted regardless of leading separator. Components must
    /// not contain a `/`; pass the path as joined raw bytes.
    pub fn lookup(&self, path: &[u8]) -> (r: Result<Node, Error>)
        ensures
            viewed(r) == self@.lookup(path@),
    {
        let parts: Vec<&[u8]> = split_path(path);
        let ghost all = components(path@);
        assert(parts@.map_values(|c: &[u8]| c@) == all);
        let mut inode: u32 = 0;
        let mut i: usize = 0;
        while i < parts.len()
            invariant
                i <= parts@.len(),
                parts@.map_values(|c: &[u8]| c@) == all,
                self@.lookup(path@) == self@.follow(all, i as int, inode),
            decreases parts@.len() - i,
        {
            let component: &[u8] = parts[i];
            assert(all[i as int] == component@);
            if self.kind(inode)? != InodeKind::Directory {
                let shown: String = debug_text(lossy_text(component).as_str());
                return Err(
                    corrupt(
                        Text::of("component ").str(shown.as_str()).str(" not under directory"),
                    ),
                );
            }
            match self.lookup_child(inode, component)? {
                Some(child) => {
                    inode = child;
                },
                None => {
                    let shown: String = debug_text(lossy_text(component).as_str());
                    return Err(
                        corrupt(
                            Text::of("no entry ").str(shown.as_str()).str(" in inode ").num(
                                inode as u64,
                            ),
                        ),
                    );
                },
            }
            i = i + 1;
        }
        let kind = self.kind(inode)?;
        Ok(Node { inode, kind })
    }

    /// Category name recorded for a block, when the image records
    /// categorisation at all.
    pub fn block_category(&self, block: u32) -> (r: Option<&str>)
        ensures
            match r {
                Some(name) => block < self@.tables.block_category_names.len() && name@
                    == self@.tables.block_category_names[block as int],
                None => block >= self@.tables.block_category_names.len(),
            },
    {
        if (block as usize) < self.tables.block_category_names.len() {
            Some(self.tables.block_category_names[block as usize].as_str())
        } else {
            None
        }
    }

    /// Distinct category names recorded in the image, in the order the
    /// image lists them.
    pub fn category_names(&self) -> (r: Vec<&str>)
        ensures
            r@.map_values(|s: &str| s@) == distinct_from(
                self@.tables.block_category_names,
                0,
                Seq::empty(),
            ),
    {
        let ghost view = |s: &str| s@;
        let ghost all = self@.tables.block_category_names;
        let mut seen: Vec<usize> = Vec::new();
        let mut out: Vec<&str> = Vec::new();
        assert(out@.map_values(view) =~= Seq::<Seq<char>>::empty());
        let mut i: usize = 0;
        while i < self.tables.block_category_names.len()
            invariant
                i <= all.len() == self.tables.block_category_names@.len(),
                all == texts(self.tables.block_category_names@),
                view == (|s: &str| s@),
                seen@.len() == out@.len(),
                forall|k: int|
                    0 <= k < seen@.len() ==> (#[trigger] seen@[k]) < all.len() && all[seen@[k] as int]
                        == out@[k]@,
                distinct_from(all, 0, Seq::empty()) == distinct_from(
                    all,
                    i as nat,
                    out@.map_values(view),
                ),
            decreases all.len() - i,
        {
            let name: &String = &self.tables.block_category_names[i];
            assert(name@ == all[i as int]);
            let ghost have = out@.map_values(view);
            let mut known: bool = false;
            let mut k: usize = 0;
            while k < seen.len()
                invariant
                    k <= seen@.len() == out@.len() == have.len(),
                    all.len() == self.tables.block_category_names@.len(),
                    all == texts(self.tables.block_category_names@),
                    have == out@.map_values(view),
                    view == (|s: &str| s@),
                    forall|k: int|
                        0 <= k < seen@.len() ==> (#[trigger] seen@[k]) < all.len()
                            && all[seen@[k] as int] == out@[k]@,
                    known ==> have.contains(name@),
                    !known ==> forall|j: int| 0 <= j < k ==> #[trigger] have[j] != name@,
                decreases seen@.len() - k,
            {
                assert(seen@[k as int] < all.len());
                assert(all[seen@[k as int] as int] == have[k as int]);
                if self.tables.block_category_names[seen[k]].eq(name) {
                    known = true;
                }
                k = k + 1;
            }
            if !known {
                assert(!have.contains(name@));
                let ghost before = out@;
                seen.push(i);
                out.push(name.as_str());
                assert(out@.map_values(view) =~= have.push(name@));
            }
            i = i + 1;
        }
        out
    }
}

} // verus!
