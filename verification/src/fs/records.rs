//! What the metadata tables say of an inode, a directory and a file.
//!
//! The answers of a tree, said in terms of the tables alone.

use crate::collect::{lemma_collect_all, lemma_collect_ok};
use crate::error::ErrorView;
use crate::fs::content::{
    FsView, block_records, decode_tree, file_chunks, lemma_chunk_at, lemma_file_chunks,
    lemma_read_step, open_tree,
};
use crate::fs::chunks::{HoleRules, lemma_sound_chunk_tables_are_accepted, rows_are_sound};
use crate::fs::inode::{InodeKind, kind_of_mode};
use crate::fs::offsets::{Class, InodeOffsets, class_start, kind_at, lemma_class_start, offsets_of};
use crate::fs::tables::TablesView;
use crate::fs::tree::{ListingView, Stat, TreeView, tree_of};
use crate::format::image::{ImageView, first_section, section_decoded};
use crate::format::layout::lemma_first_section_is_first;
use crate::format::sections::RecordView;
use crate::format::types::SectionType;
use crate::metadata::model::Chunk;
use vstd::prelude::*;

verus! {

/// The file-type bits of a mode, `S_IFMT`.
pub open spec fn type_bits(mode: u32) -> int {
    mode % 0x1_0000 - mode % 0x1000
}

/// The kind of a mode goes by its file-type bits alone, as `stat` defines
/// them.
pub proof fn lemma_kind_is_the_file_type(mode: u32)
    ensures
        kind_of_mode(mode) == InodeKind::Fifo <==> type_bits(mode) == 0x1000,
        kind_of_mode(mode) == InodeKind::CharDevice <==> type_bits(mode) == 0x2000,
        kind_of_mode(mode) == InodeKind::Directory <==> type_bits(mode) == 0x4000,
        kind_of_mode(mode) == InodeKind::BlockDevice <==> type_bits(mode) == 0x6000,
        kind_of_mode(mode) == InodeKind::Regular <==> type_bits(mode) == 0x8000,
        kind_of_mode(mode) == InodeKind::Symlink <==> type_bits(mode) == 0xA000,
        kind_of_mode(mode) == InodeKind::Socket <==> type_bits(mode) == 0xC000,
{
    let bits = (mode / 0x1000) % 16;
    assert(type_bits(mode) == 0x1000 * bits);
}

/// The mode that an inode records.
pub open spec fn recorded_mode(v: TreeView, inode: u32) -> u32 {
    v.tables.modes[v.tables.inodes[inode as int].mode_index as int]
}

/// Whether an inode records a mode of the image.
pub open spec fn has_mode(v: TreeView, inode: u32) -> bool {
    inode < v.tables.inodes.len() && v.tables.inodes[inode as int].mode_index
        < v.tables.modes.len()
}

/// The kind of an inode is that of the mode it records.
pub proof fn lemma_kind_is_recorded(v: TreeView, inode: u32)
    ensures
        v.kind(inode) is Ok <==> has_mode(v, inode),
        v.kind(inode) matches Ok(kind) ==> kind == kind_of_mode(recorded_mode(v, inode)),
{
}

/// A time that is recorded as a number of units behind the image's base.
pub open spec fn recorded_time(v: TreeView, units: u64) -> int {
    v.tables.timestamp_base + units * (match v.tables.options.time_resolution_sec {
        Some(seconds) => seconds as int,
        None => 1,
    })
}

/// Whether attributes say what an inode records: its mode, the owner and
/// the group that its indices stand for, its times, its links and its
/// device number.
pub open spec fn says_what_is_recorded(v: TreeView, s: Stat) -> bool {
    let info = v.tables.inodes[s.inode as int];
    &&& s.inode < v.tables.inodes.len()
    &&& info.mode_index < v.tables.modes.len()
    &&& info.owner_index < v.tables.uids.len()
    &&& info.group_index < v.tables.gids.len()
    &&& s.mode == v.tables.modes[info.mode_index as int]
    &&& s.uid == v.tables.uids[info.owner_index as int]
    &&& s.gid == v.tables.gids[info.group_index as int]
    &&& s.mtime == recorded_time(v, info.mtime_offset)
    &&& s.atime == recorded_time(
        v,
        if v.tables.options.mtime_only {
            info.mtime_offset
        } else {
            info.atime_offset
        },
    )
    &&& s.ctime == recorded_time(
        v,
        if v.tables.options.mtime_only {
            info.mtime_offset
        } else {
            info.ctime_offset
        },
    )
    &&& v.tables.options.inodes_have_nlink ==> s.nlink == (if info.nlink_minus_one < u32::MAX {
        info.nlink_minus_one + 1
    } else {
        u32::MAX as int
    })
    &&& !v.tables.options.inodes_have_nlink ==> s.nlink == 1
    &&& s.kind == kind_of_mode(s.mode)
    &&& s.kind != InodeKind::Regular ==> s.size == 0
    &&& v.file_size(s.inode) == Ok::<u64, ErrorView>(s.size)
    &&& s.kind.is_device() ==> (v.device_rdev(s.inode) matches Ok(rdev) ==> s.rdev == rdev)
    &&& !s.kind.is_device() ==> s.rdev == 0
}

/// The attributes of an inode say what the inode records.
pub proof fn lemma_stat_says_what_is_recorded(v: TreeView, inode: u32)
    requires
        v.stat(inode) is Ok,
    ensures
        v.stat(inode)->Ok_0.inode == inode,
        says_what_is_recorded(v, v.stat(inode)->Ok_0),
{
}

/// An inode has attributes where its indices lie inside their tables, its
/// times fit 64 bits, and its size is known.
pub proof fn lemma_stat_is_owed(v: TreeView, inode: u32)
    requires
        has_mode(v, inode),
        ({
            let info = v.tables.inodes[inode as int];
            &&& info.owner_index < v.tables.uids.len()
            &&& info.group_index < v.tables.gids.len()
            &&& recorded_time(v, info.mtime_offset) <= u64::MAX
            &&& recorded_time(v, info.atime_offset) <= u64::MAX
            &&& recorded_time(v, info.ctime_offset) <= u64::MAX
        }),
        v.file_size(inode) is Ok,
    ensures
        v.stat(inode) is Ok,
{
}

/// The first entry of a directory.
pub open spec fn first_entry(v: TreeView, dir: u32) -> int {
    v.tables.directories[dir as int].first_entry as int
}

/// The entry after the last of a directory: the first of the next one.
pub open spec fn entries_end(v: TreeView, dir: u32) -> int {
    if dir + 1 < v.tables.directories.len() {
        v.tables.directories[dir + 1].first_entry as int
    } else {
        v.tables.dir_entries.len() as int
    }
}

/// Whether the entries of a directory are a range of the entry table, and
/// each of them has a name.
pub open spec fn has_entries(v: TreeView, dir: u32) -> bool {
    &&& dir < v.tables.directories.len()
    &&& first_entry(v, dir) <= entries_end(v, dir) <= v.tables.dir_entries.len()
    &&& forall|e: int|
        first_entry(v, dir) <= e < entries_end(v, dir) ==> (
        #[trigger] v.tables.dir_entries[e]).name_index < v.tables.names.len()
}

/// The name that a directory entry records.
pub open spec fn recorded_name(v: TreeView, e: int) -> Seq<u8> {
    v.tables.names[v.tables.dir_entries[e].name_index as int]
}

/// A directory lists its own entries, all of them, in order, each with the
/// inode, the kind and the name that the tables record for it.
pub proof fn lemma_listing_is_recorded(v: TreeView, dir: u32)
    requires
        v.kind(dir) == Ok::<InodeKind, ErrorView>(InodeKind::Directory),
        has_entries(v, dir),
        forall|e: int|
            first_entry(v, dir) <= e < entries_end(v, dir) ==> has_mode(
                v,
                (#[trigger] v.tables.dir_entries[e]).inode_num,
            ),
    ensures
        v.read_dir(dir) matches Ok(list) && {
            &&& list.len() == entries_end(v, dir) - first_entry(v, dir)
            &&& forall|k: int|
                0 <= k < list.len() ==> {
                    let e = first_entry(v, dir) + k;
                    &&& (#[trigger] list[k]).name == recorded_name(v, e)
                    &&& list[k].inode == v.tables.dir_entries[e].inode_num
                    &&& list[k].kind == kind_of_mode(recorded_mode(v, list[k].inode))
                }
        },
{
    let begin = first_entry(v, dir);
    let n = (entries_end(v, dir) - begin) as nat;
    let want = Seq::new(
        n,
        |k: int|
            ListingView {
                inode: v.tables.dir_entries[begin + k].inode_num,
                kind: kind_of_mode(recorded_mode(v, v.tables.dir_entries[begin + k].inode_num)),
                name: recorded_name(v, begin + k),
            },
    );
    let get = v.listing_at(begin as nat);
    assert forall|j: nat| j < n implies #[trigger] get(j) == Ok::<ListingView, ErrorView>(
        want[j as int],
    ) by {
        let entry = v.tables.dir_entries[begin + j];
        assert(entry.name_index < v.tables.names.len());
        assert(has_mode(v, entry.inode_num));
    }
    lemma_collect_all(n, want, get);
}

/// A listing that succeeds is the one that the tables record.
pub proof fn lemma_listing_says_what_is_recorded(v: TreeView, dir: u32)
    requires
        v.read_dir(dir) is Ok,
    ensures
        ({
            let list = v.read_dir(dir)->Ok_0;
            &&& v.kind(dir) == Ok::<InodeKind, ErrorView>(InodeKind::Directory)
            &&& list.len() == entries_end(v, dir) - first_entry(v, dir)
            &&& forall|k: int|
                0 <= k < list.len() ==> {
                    let e = first_entry(v, dir) + k;
                    &&& (#[trigger] list[k]).name == recorded_name(v, e)
                    &&& list[k].inode == v.tables.dir_entries[e].inode_num
                    &&& list[k].kind == kind_of_mode(recorded_mode(v, list[k].inode))
                }
        }),
{
    let (begin, end) = v.dir_range(dir)->Ok_0;
    let get = v.listing_at(begin);
    lemma_collect_ok((end - begin) as nat, get);
    let list = v.read_dir(dir)->Ok_0;
    assert forall|k: int| 0 <= k < list.len() implies {
        let e = first_entry(v, dir) + k;
        &&& (#[trigger] list[k]).name == recorded_name(v, e)
        &&& list[k].inode == v.tables.dir_entries[e].inode_num
        &&& list[k].kind == kind_of_mode(recorded_mode(v, list[k].inode))
    } by {
        assert(get(k as nat) == Ok::<ListingView, ErrorView>(list[k]));
    }
}

proof fn lemma_find_first(v: TreeView, name: Seq<u8>, i: int, end: int)
    requires
        forall|e: int|
            i <= e < end ==> (#[trigger] v.tables.dir_entries[e]).name_index
                < v.tables.names.len(),
    ensures
        v.find_entry(name, i, end) matches Ok(found) && match found {
            Some(inode) => exists|e: int|
                i <= e < end && (#[trigger] v.tables.dir_entries[e]).inode_num == inode
                    && recorded_name(v, e) == name && forall|d: int|
                    i <= d < e ==> #[trigger] recorded_name(v, d) != name,
            None => forall|e: int| i <= e < end ==> #[trigger] recorded_name(v, e) != name,
        },
    decreases end - i,
{
    if i < end {
        let entry = v.tables.dir_entries[i];
        assert(entry.name_index < v.tables.names.len());
        if recorded_name(v, i) == name {
            assert(v.tables.dir_entries[i].inode_num == entry.inode_num);
        } else {
            lemma_find_first(v, name, i + 1, end);
            if let Ok(Some(inode)) = v.find_entry(name, i + 1, end) {
                let e = choose|e: int|
                    i + 1 <= e < end && (#[trigger] v.tables.dir_entries[e]).inode_num == inode
                        && recorded_name(v, e) == name && forall|d: int|
                        i + 1 <= d < e ==> #[trigger] recorded_name(v, d) != name;
                assert forall|d: int| i <= d < e implies #[trigger] recorded_name(v, d)
                    != name by {}
                assert(v.tables.dir_entries[e].inode_num == inode);
            }
        }
    }
}

/// A name is found in a directory exactly when one of the directory's own
/// entries has it, and leads to the inode of the first that has.
pub proof fn lemma_child_is_recorded(v: TreeView, dir: u32, name: Seq<u8>)
    requires
        has_entries(v, dir),
    ensures
        v.lookup_child(dir, name) matches Ok(found) && match found {
            Some(inode) => exists|e: int|
                first_entry(v, dir) <= e < entries_end(v, dir) && (
                #[trigger] v.tables.dir_entries[e]).inode_num == inode && recorded_name(v, e)
                    == name && forall|d: int|
                    first_entry(v, dir) <= d < e ==> #[trigger] recorded_name(v, d) != name,
            None => forall|e: int|
                first_entry(v, dir) <= e < entries_end(v, dir) ==> #[trigger] recorded_name(v, e)
                    != name,
        },
{
    lemma_find_first(v, name, first_entry(v, dir), entries_end(v, dir));
}

/// A directory's parent is the inode of the entry that it records as its
/// parent's.
pub proof fn lemma_parent_is_recorded(v: TreeView, dir: u32)
    requires
        v.parent(dir) is Ok,
    ensures
        v.kind(dir) == Ok::<InodeKind, ErrorView>(InodeKind::Directory),
        v.parent(dir)->Ok_0
            == v.tables.dir_entries[v.tables.directories[dir as int].parent_entry as int].inode_num,
{
}

/// Whether `first` is the first inode of a class.
pub open spec fn is_first_of(v: TreeView, class: Class, first: int) -> bool {
    &&& 0 <= first < v.tables.inodes.len()
    &&& class.has(kind_of_mode(recorded_mode(v, first as u32)))
    &&& forall|i: u32|
        i < first ==> !class.has(kind_of_mode(#[trigger] recorded_mode(v, i)))
}

proof fn lemma_class_starts_at(v: TreeView, class: Class, first: int)
    requires
        v.consistent(),
        is_first_of(v, class, first),
    ensures
        class_start(v.tables.inodes, v.tables.modes, class) == first,
{
    let t = v.tables;
    assert(kind_at(t.inodes, t.modes, first) == kind_of_mode(recorded_mode(v, first as u32)));
    lemma_class_start(t.inodes, t.modes, class, first);
    let start = class_start(t.inodes, t.modes, class);
    if start < first {
        assert(!class.has(kind_of_mode(recorded_mode(v, start))));
    }
}

/// The symlinks of an image take their targets in order: the one `k`
/// places behind the first has the target that row `k` of the symlink
/// table stands for.
pub proof fn lemma_symlink_target_is_recorded(v: TreeView, first: int, inode: u32)
    requires
        v.consistent(),
        is_first_of(v, Class::Symlink, first),
        v.kind(inode) == Ok::<InodeKind, ErrorView>(InodeKind::Symlink),
        inode - first < v.tables.symlink_table.len(),
        v.tables.symlink_table[inode - first] < v.tables.symlinks.len(),
    ensures
        v.read_link(inode) == Ok::<Seq<u8>, ErrorView>(
            v.tables.symlinks[v.tables.symlink_table[inode - first] as int],
        ),
        inode >= first,
{
    reveal(tree_of);
    lemma_class_starts_at(v, Class::Symlink, first);
    let t = v.tables;
    assert(kind_at(t.inodes, t.modes, inode as int) == kind_of_mode(recorded_mode(v, inode)));
    lemma_class_start(t.inodes, t.modes, Class::Symlink, inode as int);
}

/// Only a symlink has a target.
pub proof fn lemma_only_symlinks_have_targets(v: TreeView, inode: u32)
    requires
        v.kind(inode) != Ok::<InodeKind, ErrorView>(InodeKind::Symlink),
    ensures
        v.read_link(inode) is Err,
{
}

/// The devices of an image take their numbers in order: the one `k` places
/// behind the first has the number that stands at place `k`.
pub proof fn lemma_device_number_is_recorded(v: TreeView, first: int, inode: u32)
    requires
        v.consistent(),
        is_first_of(v, Class::Device, first),
        v.kind(inode) matches Ok(kind) && kind.is_device(),
        inode - first < v.tables.devices.len(),
    ensures
        v.device_rdev(inode) == Ok::<u64, ErrorView>(v.tables.devices[inode - first]),
        inode >= first,
{
    reveal(tree_of);
    lemma_class_starts_at(v, Class::Device, first);
    let t = v.tables;
    assert(kind_at(t.inodes, t.modes, inode as int) == kind_of_mode(recorded_mode(v, inode)));
    lemma_class_start(t.inodes, t.modes, Class::Device, inode as int);
}

/// The files with contents of their own take the rows of the chunk table
/// in order, from the first file on; the files that share theirs, which
/// come last, take the row behind those that their group stands for. `end`
/// is where the files end.
pub proof fn lemma_file_takes_its_row(v: TreeView, first: int, end: int, inode: u32)
    requires
        v.consistent(),
        is_first_of(v, Class::Regular, first),
        end == class_start(v.tables.inodes, v.tables.modes, Class::Device) || end == class_start(
            v.tables.inodes,
            v.tables.modes,
            Class::Special,
        ),
        end <= class_start(v.tables.inodes, v.tables.modes, Class::Device),
        end <= class_start(v.tables.inodes, v.tables.modes, Class::Special),
        first <= inode < end,
    ensures
        ({
            let shared = end - v.tables.shared_files.len();
            let row = if inode < shared {
                inode - first
            } else {
                shared - first + v.tables.shared_files[inode - shared]
            };
            &&& first <= shared
            &&& v.slot(inode) == Ok::<nat, ErrorView>(row as nat)
            &&& v.chunk_range(inode) matches Ok((a, b)) ==> a == v.tables.chunk_table[row] && b
                == v.tables.chunk_table[row + 1]
            &&& row + 1 < v.tables.chunk_table.len() ==> v.chunk_range(inode) is Ok
        }),
{
    reveal(tree_of);
    lemma_class_starts_at(v, Class::Regular, first);
    let shared = end - v.tables.shared_files.len();
    let row = if inode < shared {
        inode - first
    } else {
        shared - first + v.tables.shared_files[inode - shared]
    };
    if row + 1 < v.tables.chunk_table.len() {
        crate::fs::tree::lemma_chunk_table_ascends(v, row, row + 1);
        lemma_rows_lie_inside(v, row);
    }
}

proof fn lemma_rows_lie_inside(v: TreeView, row: int)
    requires
        v.consistent(),
        0 <= row,
        row + 1 < v.tables.chunk_table.len(),
    ensures
        v.tables.chunk_table[row + 1] <= v.tables.chunks.len(),
{
    let t = v.tables;
    reveal(tree_of);
    crate::fs::chunks::lemma_chunk_ends_hold(
        crate::fs::tree::hole_rules(t),
        t.chunks,
        t.chunk_table,
    );
    crate::fs::chunks::lemma_ends_at(
        crate::fs::tree::hole_rules(t),
        t.chunks,
        t.chunk_table,
        v.chunk_end,
        row,
    );
}

/// A hole of `n` bytes is stored as a number of whole blocks and the rest,
/// and has `n` bytes.
pub proof fn lemma_hole_length_reads_back(rules: HoleRules, n: u64, chunk: Chunk)
    requires
        rules.hole_block_index == Some(chunk.block),
        rules.block_size > 0,
        chunk.size == n / rules.block_size as u64,
        chunk.offset == n % rules.block_size as u64,
        chunk.offset != u32::MAX,
    ensures
        rules.len(chunk) == Ok::<u64, ErrorView>(n),
{
    vstd::arithmetic::div_mod::lemma_fundamental_div_mod(n as int, rules.block_size as int);
    assert(chunk.size * rules.block_size == rules.block_size as int * (n as int
        / rules.block_size as int)) by (nonlinear_arith)
        requires
            chunk.size == n as int / rules.block_size as int,
    ;
}

/// A hole whose offset is the sentinel takes its length from the table of
/// large holes, and a chunk of a block has the length it records.
pub proof fn lemma_other_lengths(rules: HoleRules, chunk: Chunk)
    ensures
        rules.hole_block_index == Some(chunk.block) && chunk.offset == 0xFFFF_FFFF && chunk.size
            < rules.large_hole_size.len() ==> rules.len(chunk) == Ok::<u64, ErrorView>(
            rules.large_hole_size[chunk.size as int],
        ),
        rules.hole_block_index != Some(chunk.block) ==> rules.len(chunk) == Ok::<u64, ErrorView>(
            chunk.size as u64,
        ),
{
}

/// The bytes that a chunk stands for: zeros for a hole, else a part of its
/// block.
pub open spec fn chunk_content(v: FsView, i: int) -> Seq<u8> {
    let chunk = v.tree.tables.chunks[i];
    if v.tree.tables.hole_block_index == Some(chunk.block) {
        Seq::new(v.rules().len(chunk)->Ok_0 as nat, |k: int| 0u8)
    } else {
        v.block_bytes(chunk.block)->Ok_0.subrange(
            chunk.offset as int,
            chunk.offset + chunk.size,
        )
    }
}

/// Whether the block of a chunk can be had and holds the chunk.
pub open spec fn chunk_is_there(v: FsView, i: int) -> bool {
    let chunk = v.tree.tables.chunks[i];
    v.tree.tables.hole_block_index != Some(chunk.block) ==> (v.block_bytes(
        chunk.block,
    ) matches Ok(block) && chunk.offset + chunk.size <= block.len())
}

/// The bytes of chunks `i..end`, one after the other.
pub open spec fn chunk_contents(v: FsView, i: int, end: int) -> Seq<u8>
    decreases end - i,
{
    if i >= end {
        Seq::empty()
    } else {
        chunk_content(v, i) + chunk_contents(v, i + 1, end)
    }
}

proof fn lemma_contents_from(v: FsView, start: int, i: int, end: int, to: int)
    requires
        file_chunks(v, start, end),
        start <= i <= end,
        to == v.rules().total(v.tree.tables.chunks, start, end),
        forall|k: int| start <= k < end ==> #[trigger] chunk_is_there(v, k),
    ensures
        v.read_chunks(i, end, 0, to) == Ok::<Seq<u8>, ErrorView>(chunk_contents(v, i, end)),
        chunk_contents(v, i, end).len() == to - v.rules().total(v.tree.tables.chunks, start, i),
    decreases end - i,
{
    lemma_read_step(v, i, end, 0, to);
    if i < end {
        lemma_chunk_at(v, start, i, end);
        lemma_contents_from(v, start, i + 1, end, to);
        assert(chunk_is_there(v, i));
        let chunk = v.tree.tables.chunks[i];
        let len = v.rules().len(chunk)->Ok_0 as int;
        let one = chunk_content(v, i);
        let rest = chunk_contents(v, i + 1, end);
        assert(v.rules().total(v.tree.tables.chunks, start, i + 1) == v.rules().total(
            v.tree.tables.chunks,
            start,
            i,
        ) + len);
        assert(one.len() == len);
        assert(v.chunk_bytes(i, 0, len) == Ok::<Seq<u8>, ErrorView>(one)) by {
            reveal(FsView::chunk_bytes);
        }
        if v.chunk_start(i) >= to {
            assert(one + rest =~= Seq::<u8>::empty());
        } else if v.chunk_stop(i) <= 0 {
            assert(one + rest =~= rest);
        }
    }
}

/// The contents of a file are the bytes of its chunks, one after the
/// other: a part of a block each, or the zeros of a hole. As many chunks
/// belong to the file as the row of the chunk table that it takes tells.
pub proof fn lemma_file_is_its_chunks(v: FsView, inode: u32)
    requires
        v.tree.consistent(),
        v.tree.kind(inode) == Ok::<InodeKind, ErrorView>(InodeKind::Regular),
        v.tree.chunk_range(inode) is Ok,
        forall|k: int|
            v.tree.chunk_range(inode)->Ok_0.0 <= k < v.tree.chunk_range(inode)->Ok_0.1
                ==> #[trigger] chunk_is_there(v, k),
        v.tree.file_size(inode)->Ok_0 <= usize::MAX,
    ensures
        ({
            let (start, end) = v.tree.chunk_range(inode)->Ok_0;
            let bytes = chunk_contents(v, start as int, end as int);
            &&& v.read_file(inode) == Ok::<Seq<u8>, ErrorView>(bytes)
            &&& v.tree.file_size(inode) == Ok::<u64, ErrorView>(bytes.len() as u64)
        }),
{
    let (start, end) = v.tree.chunk_range(inode)->Ok_0;
    lemma_file_chunks(v, inode);
    let size = v.tree.file_size(inode)->Ok_0;
    lemma_contents_from(v, start as int, start as int, end as int, size as int);
    assert(FsView::available(size, 0, size) == size);
}

/// The blocks of an image are its block sections in order, the others left
/// out: a block's number is the number of block sections before it.
pub proof fn lemma_blocks_are_numbered(records: Seq<RecordView>, n: nat)
    requires
        n <= records.len(),
    ensures
        block_records(records, n) == records.take(n as int).filter(
            |r: RecordView| r.header.section_type == SectionType::Block,
        ),
    decreases n,
{
    let keep = |r: RecordView| r.header.section_type == SectionType::Block;
    reveal(Seq::filter);
    if n > 0 {
        lemma_blocks_are_numbered(records, (n - 1) as nat);
        assert(records.take(n as int).drop_last() =~= records.take(n - 1));
    }
}

/// A block is what its section decodes to, under the block size as cap.
pub proof fn lemma_block_is_its_section(v: FsView, block: u32)
    ensures
        ({
            let blocks = v.image.sections.filter(
                |r: RecordView| r.header.section_type == SectionType::Block,
            );
            if block < blocks.len() {
                v.block_bytes(block) == section_decoded(
                    v.image.bytes,
                    blocks[block as int],
                    v.tree.tables.block_size as nat,
                )
            } else {
                v.block_bytes(block) is Err
            }
        }),
{
    reveal(FsView::block_bytes);
    let sections = v.image.sections;
    lemma_blocks_are_numbered(sections, sections.len());
    assert(sections.take(sections.len() as int) =~= sections);
}

proof fn lemma_first_is(records: Seq<RecordView>, kind: SectionType, i: int)
    requires
        0 <= i < records.len(),
        records[i].header.section_type == kind,
        forall|k: int| 0 <= k < i ==> (#[trigger] records[k]).header.section_type != kind,
    ensures
        first_section(records, kind) == Some(records[i]),
{
    lemma_first_section_is_first(records, kind);
    let r = first_section(records, kind)->Some_0;
    let k = choose|k: int|
        0 <= k < records.len() && #[trigger] records[k] == r && r.header.section_type == kind
            && forall|j: int|
            0 <= j < k ==> (#[trigger] records[j]).header.section_type != kind;
    if k < i {
        assert(records[k].header.section_type != kind);
    }
    if i < k {
        assert(records[i].header.section_type != kind);
    }
}

/// Opening takes the first schema section, decoded to a mebibyte at most,
/// and the first metadata section, decoded to 64 mebibytes at most.
pub proof fn lemma_opening_decodes_the_metadata(image: ImageView, i: int, j: int)
    requires
        0 <= i < image.sections.len(),
        0 <= j < image.sections.len(),
        image.sections[i].header.section_type == SectionType::MetadataV2Schema,
        forall|k: int|
            0 <= k < i ==> (#[trigger] image.sections[k]).header.section_type
                != SectionType::MetadataV2Schema,
        image.sections[j].header.section_type == SectionType::MetadataV2,
        forall|k: int|
            0 <= k < j ==> (#[trigger] image.sections[k]).header.section_type
                != SectionType::MetadataV2,
    ensures
        ({
            let schema = section_decoded(image.bytes, image.sections[i], 0x10_0000);
            let metadata = section_decoded(image.bytes, image.sections[j], 0x400_0000);
            match (schema, metadata) {
                (Ok(s), Ok(m)) => open_tree(image) == decode_tree(s, m),
                _ => open_tree(image) is Err,
            }
        }),
{
    reveal(open_tree);
    lemma_first_is(image.sections, SectionType::MetadataV2Schema, i);
    lemma_first_is(image.sections, SectionType::MetadataV2, j);
}

/// Tables make a tree where their inodes can be partitioned and their
/// chunk table is sound, and the tree keeps the tables.
pub proof fn lemma_tree_is_owed(t: TablesView)
    requires
        offsets_of(t.inodes, t.modes, t.shared_files.len()) is Ok,
        rows_are_sound(
            HoleRules {
                hole_block_index: t.hole_block_index,
                block_size: t.block_size,
                large_hole_size: t.large_hole_size,
            },
            t.chunks,
            t.chunk_table,
        ),
    ensures
        tree_of(t) matches Ok(v) && v.tables == t && offsets_of(
            t.inodes,
            t.modes,
            t.shared_files.len(),
        ) == Ok::<InodeOffsets, ErrorView>(v.offsets),
{
    reveal(tree_of);
    let rules = HoleRules {
        hole_block_index: t.hole_block_index,
        block_size: t.block_size,
        large_hole_size: t.large_hole_size,
    };
    lemma_sound_chunk_tables_are_accepted(rules, t.chunks, t.chunk_table);
}

} // verus!
