//! Rebuilding the columns that a packed directory table leaves out.

use crate::fs::tables::{Tables, TablesView};
use crate::metadata::model::{DirEntry, Directory};
use crate::metadata::string_table::{
    inclusive_prefix_sum_u32, lemma_sum_push, prefix_sums, sum_of,
};
use vstd::prelude::*;

verus! {

/// The `first_entry` column.
pub open spec fn first_entries(dirs: Seq<Directory>) -> Seq<u32> {
    dirs.map_values(|d: Directory| d.first_entry)
}

/// The directories with `first_entry` replaced by its running sums.
pub open spec fn delta_unpacked(dirs: Seq<Directory>) -> Seq<Directory> {
    Seq::new(
        dirs.len(),
        |i: int| Directory { first_entry: prefix_sums(first_entries(dirs))[i], ..dirs[i] },
    )
}

/// The entries of directory `d`, where its range is one.
pub open spec fn entry_range(dirs: Seq<Directory>, entries: nat, d: int) -> Option<(int, int)> {
    let begin = dirs[d].first_entry as int;
    let end = dirs[d + 1].first_entry as int;
    if begin <= end && end <= entries {
        Some((begin, end))
    } else {
        None
    }
}

/// Whether an inode number is a directory other than the root.
pub open spec fn is_child(inode: u32, count: nat) -> bool {
    0 < inode < count
}

/// The naming entries found so far, `found`, after the entries `e..end`
/// were seen. The first entry that names a directory stays.
pub open spec fn named_in(
    entries: Seq<DirEntry>,
    count: nat,
    e: int,
    end: int,
    found: Seq<u32>,
) -> Seq<u32>
    decreases end - e,
{
    if e >= end {
        found
    } else {
        let child = entries[e].inode_num;
        let next = if is_child(child, count) && found[child as int] == 0 {
            found.update(child as int, e as u32)
        } else {
            found
        };
        named_in(entries, count, e + 1, end, next)
    }
}

/// The naming entries found after directories `d..count` were seen.
pub open spec fn named_from(
    dirs: Seq<Directory>,
    entries: Seq<DirEntry>,
    count: nat,
    d: int,
    found: Seq<u32>,
) -> Seq<u32>
    decreases count - d,
{
    if d >= count {
        found
    } else {
        let next = match entry_range(dirs, entries.len(), d) {
            Some((begin, end)) => named_in(entries, count, begin, end, found),
            None => found,
        };
        named_from(dirs, entries, count, d + 1, next)
    }
}

/// The entry that names each directory, zero where there is none.
pub open spec fn naming_entries(dirs: Seq<Directory>, entries: Seq<DirEntry>, count: nat) -> Seq<
    u32,
> {
    named_from(dirs, entries, count, 0, Seq::new(count, |i: int| 0u32))
}

/// The directories after the entries `e..end` of a directory that is named
/// by entry `parent` were seen.
pub open spec fn parented_in(
    entries: Seq<DirEntry>,
    count: nat,
    e: int,
    end: int,
    parent: u32,
    acc: Seq<Directory>,
) -> Seq<Directory>
    decreases end - e,
{
    if e >= end {
        acc
    } else {
        let child = entries[e].inode_num;
        let next = if is_child(child, count) {
            acc.update(child as int, Directory { parent_entry: parent, ..acc[child as int] })
        } else {
            acc
        };
        parented_in(entries, count, e + 1, end, parent, next)
    }
}

/// The directories after directories `d..count` of `dirs` were seen.
pub open spec fn parented_from(
    dirs: Seq<Directory>,
    entries: Seq<DirEntry>,
    selfs: Seq<u32>,
    d: int,
    acc: Seq<Directory>,
) -> Seq<Directory>
    decreases selfs.len() - d,
{
    if d >= selfs.len() {
        acc
    } else {
        let next = match entry_range(dirs, entries.len(), d) {
            Some((begin, end)) => parented_in(entries, selfs.len(), begin, end, selfs[d], acc),
            None => acc,
        };
        parented_from(dirs, entries, selfs, d + 1, next)
    }
}

/// The directories with the root's `parent_entry` cleared. The last
/// directory of a table is no root: it only closes the entry range before
/// it.
pub open spec fn rooted(dirs: Seq<Directory>) -> Seq<Directory> {
    if dirs.len() > 1 {
        dirs.update(0, Directory { parent_entry: 0, ..dirs[0] })
    } else {
        dirs
    }
}

/// The directories with `parent_entry` and `self_entry` rebuilt. The last
/// directory of a table only closes the entry range before it.
pub open spec fn relinked(dirs: Seq<Directory>, entries: Seq<DirEntry>) -> Seq<Directory> {
    if dirs.len() == 0 {
        dirs
    } else {
        let count = (dirs.len() - 1) as nat;
        let selfs = naming_entries(dirs, entries, count);
        let parented = parented_from(dirs, entries, selfs, 0, rooted(dirs));
        Seq::new(
            dirs.len(),
            |i: int|
                if i < count {
                    Directory { self_entry: selfs[i], ..parented[i] }
                } else {
                    parented[i]
                },
        )
    }
}

/// The tables with every packed column unpacked.
pub open spec fn unpacked(t: TablesView) -> TablesView {
    TablesView {
        chunk_table: if t.options.packed_chunk_table {
            prefix_sums(t.chunk_table)
        } else {
            t.chunk_table
        },
        directories: if t.options.packed_directories {
            relinked(delta_unpacked(t.directories), t.dir_entries)
        } else {
            t.directories
        },
        ..t
    }
}

proof fn lemma_sums_of_steps(plain: Seq<u32>, steps: Seq<u32>, i: int)
    requires
        plain.len() == steps.len(),
        steps.len() > 0 ==> steps[0] == plain[0],
        forall|k: int|
            #![trigger steps[k]]
            0 < k < steps.len() ==> steps[k] == plain[k] - plain[k - 1],
        0 <= i < plain.len(),
    ensures
        sum_of(steps.take(i + 1)) == plain[i],
    decreases i,
{
    lemma_sum_push(steps, i);
    if i > 0 {
        lemma_sums_of_steps(plain, steps, i - 1);
        assert(steps[i] == plain[i] - plain[i - 1]);
    } else {
        assert(steps.take(0) =~= Seq::<u32>::empty());
        assert(sum_of(steps.take(0)) == 0);
    }
}

/// A chunk table that was packed, each number replaced by its distance
/// from the one before it, unpacks to the table.
pub proof fn lemma_packed_chunk_table_unpacks(t: TablesView, plain: Seq<u32>)
    requires
        t.options.packed_chunk_table,
        plain.len() == t.chunk_table.len(),
        t.chunk_table.len() > 0 ==> t.chunk_table[0] == plain[0],
        forall|k: int|
            #![trigger t.chunk_table[k]]
            0 < k < t.chunk_table.len() ==> t.chunk_table[k] == plain[k] - plain[k - 1],
    ensures
        unpacked(t).chunk_table == plain,
{
    assert forall|i: int| 0 <= i < plain.len() implies unpacked(t).chunk_table[i] == plain[i] by {
        lemma_sums_of_steps(plain, t.chunk_table, i);
    }
    assert(unpacked(t).chunk_table =~= plain);
}

/// Tables that were not packed stay as they are, and unpacking changes no
/// table but the chunk table and the directories.
pub proof fn lemma_plain_tables_stay(t: TablesView)
    ensures
        !t.options.packed_chunk_table ==> unpacked(t).chunk_table == t.chunk_table,
        !t.options.packed_directories ==> unpacked(t).directories == t.directories,
        unpacked(t) == (TablesView {
            chunk_table: unpacked(t).chunk_table,
            directories: unpacked(t).directories,
            ..t
        }),
{
}

proof fn lemma_parented_in_keeps_entries(
    entries: Seq<DirEntry>,
    count: nat,
    e: int,
    end: int,
    parent: u32,
    acc: Seq<Directory>,
)
    requires
        count <= acc.len(),
    ensures
        ({
            let after = parented_in(entries, count, e, end, parent, acc);
            &&& after.len() == acc.len()
            &&& forall|i: int|
                0 <= i < acc.len() ==> (#[trigger] after[i]).first_entry == acc[i].first_entry
        }),
    decreases end - e,
{
    if e < end {
        let child = entries[e].inode_num;
        let next = if is_child(child, count) {
            acc.update(child as int, Directory { parent_entry: parent, ..acc[child as int] })
        } else {
            acc
        };
        lemma_parented_in_keeps_entries(entries, count, e + 1, end, parent, next);
    }
}

proof fn lemma_parented_from_keeps_entries(
    dirs: Seq<Directory>,
    entries: Seq<DirEntry>,
    selfs: Seq<u32>,
    d: int,
    acc: Seq<Directory>,
)
    requires
        selfs.len() <= acc.len(),
    ensures
        ({
            let after = parented_from(dirs, entries, selfs, d, acc);
            &&& after.len() == acc.len()
            &&& forall|i: int|
                0 <= i < acc.len() ==> (#[trigger] after[i]).first_entry == acc[i].first_entry
        }),
    decreases selfs.len() - d,
{
    if d < selfs.len() {
        let next = match entry_range(dirs, entries.len(), d) {
            Some((begin, end)) => {
                lemma_parented_in_keeps_entries(entries, selfs.len(), begin, end, selfs[d], acc);
                parented_in(entries, selfs.len(), begin, end, selfs[d], acc)
            },
            None => acc,
        };
        lemma_parented_from_keeps_entries(dirs, entries, selfs, d + 1, next);
    }
}

proof fn lemma_naming_len(dirs: Seq<Directory>, entries: Seq<DirEntry>, count: nat, d: int, found: Seq<
    u32,
>)
    requires
        count <= found.len(),
    ensures
        named_from(dirs, entries, count, d, found).len() == found.len(),
    decreases count - d,
{
    if d < count {
        let next = match entry_range(dirs, entries.len(), d) {
            Some((begin, end)) => {
                lemma_named_in_len(entries, count, begin, end, found);
                named_in(entries, count, begin, end, found)
            },
            None => found,
        };
        lemma_naming_len(dirs, entries, count, d + 1, next);
    }
}

proof fn lemma_named_in_len(entries: Seq<DirEntry>, count: nat, e: int, end: int, found: Seq<u32>)
    requires
        count <= found.len(),
    ensures
        named_in(entries, count, e, end, found).len() == found.len(),
    decreases end - e,
{
    if e < end {
        let child = entries[e].inode_num;
        let next = if is_child(child, count) && found[child as int] == 0 {
            found.update(child as int, e as u32)
        } else {
            found
        };
        lemma_named_in_len(entries, count, e + 1, end, next);
    }
}

/// A directory table that was packed, each first entry replaced by its
/// distance from the one before it, unpacks to the first entries.
pub proof fn lemma_packed_directories_unpack(t: TablesView, plain: Seq<u32>)
    requires
        t.options.packed_directories,
        plain.len() == t.directories.len(),
        t.directories.len() > 0 ==> t.directories[0].first_entry == plain[0],
        forall|k: int|
            #![trigger t.directories[k]]
            0 < k < t.directories.len() ==> t.directories[k].first_entry == plain[k] - plain[k - 1],
    ensures
        unpacked(t).directories.len() == plain.len(),
        forall|i: int|
            0 <= i < plain.len() ==> (#[trigger] unpacked(t).directories[i]).first_entry
                == plain[i],
{
    let steps = first_entries(t.directories);
    let dirs = delta_unpacked(t.directories);
    assert forall|i: int| 0 <= i < plain.len() implies (#[trigger] dirs[i]).first_entry
        == plain[i] by {
        assert forall|k: int| #![trigger steps[k]] 0 < k < steps.len() implies steps[k] == plain[k]
            - plain[k - 1] by {
            assert(t.directories[k].first_entry == steps[k]);
        }
        lemma_sums_of_steps(plain, steps, i);
    }
    if dirs.len() > 0 {
        let count = (dirs.len() - 1) as nat;
        let none = Seq::new(count, |i: int| 0u32);
        lemma_naming_len(dirs, t.dir_entries, count, 0, none);
        let selfs = naming_entries(dirs, t.dir_entries, count);
        lemma_parented_from_keeps_entries(dirs, t.dir_entries, selfs, 0, rooted(dirs));
        let parented = parented_from(dirs, t.dir_entries, selfs, 0, rooted(dirs));
        assert forall|i: int| 0 <= i < plain.len() implies (
        #[trigger] unpacked(t).directories[i]).first_entry == plain[i] by {
            assert(parented[i].first_entry == rooted(dirs)[i].first_entry);
            assert(rooted(dirs)[i].first_entry == dirs[i].first_entry);
        }
    }
}

/// Whether entry `e` is one of directory `d`'s and names directory `c`.
pub open spec fn names(
    dirs: Seq<Directory>,
    entries: Seq<DirEntry>,
    d: int,
    e: int,
    c: int,
) -> bool {
    (entry_range(dirs, entries.len(), d) matches Some(r) && r.0 <= e < r.1) && entries[e].inode_num
        == c
}

proof fn lemma_named_in(
    entries: Seq<DirEntry>,
    count: nat,
    e: int,
    end: int,
    found: Seq<u32>,
    c: int,
)
    requires
        0 <= c < count == found.len(),
        0 <= e,
        end <= u32::MAX,
    ensures
        named_in(entries, count, e, end, found).len() == count,
        c == 0 ==> named_in(entries, count, e, end, found)[c] == found[c],
        found[c] != 0 ==> named_in(entries, count, e, end, found)[c] == found[c],
        (forall|j: int| e <= j < end ==> (#[trigger] entries[j]).inode_num != c) ==> named_in(
            entries,
            count,
            e,
            end,
            found,
        )[c] == found[c],
        forall|k: int|
            c > 0 && found[c] == 0 && e <= k < end && k > 0 && (#[trigger] entries[k]).inode_num
                == c && (forall|j: int|
                e <= j < end && (#[trigger] entries[j]).inode_num == c ==> j == k)
                ==> named_in(entries, count, e, end, found)[c] == k,
    decreases end - e,
{
    if e < end {
        let child = entries[e].inode_num;
        let next = if is_child(child, count) && found[child as int] == 0 {
            found.update(child as int, e as u32)
        } else {
            found
        };
        lemma_named_in(entries, count, e + 1, end, next, c);
    }
}

proof fn lemma_named_from(
    dirs: Seq<Directory>,
    entries: Seq<DirEntry>,
    count: nat,
    d: int,
    found: Seq<u32>,
    c: int,
    d0: int,
    e0: int,
)
    requires
        dirs.len() == count + 1,
        found.len() == count,
        0 < c < count,
        0 <= d,
        0 <= d0 < count,
        e0 > 0,
        names(dirs, entries, d0, e0, c),
        forall|dd: int, e: int|
            0 <= dd < count && #[trigger] names(dirs, entries, dd, e, c) ==> dd == d0 && e == e0,
        d <= d0 ==> found[c] == 0,
        d > d0 ==> found[c] == e0,
    ensures
        named_from(dirs, entries, count, d, found).len() == count,
        named_from(dirs, entries, count, d, found)[c] == e0,
    decreases count - d,
{
    if d < count {
        let next = match entry_range(dirs, entries.len(), d) {
            Some((begin, end)) => named_in(entries, count, begin, end, found),
            None => found,
        };
        if let Some((begin, end)) = entry_range(dirs, entries.len(), d) {
            lemma_named_in(entries, count, begin, end, found, c);
            assert forall|j: int|
                begin <= j < end && (#[trigger] entries[j]).inode_num == c implies d == d0 && j
                == e0 by {
                assert(names(dirs, entries, d, j, c));
            }
            if d == d0 {
                assert(entries[e0].inode_num == c);
            }
        }
        lemma_named_from(dirs, entries, count, d + 1, next, c, d0, e0);
    }
}

proof fn lemma_named_from_root(
    dirs: Seq<Directory>,
    entries: Seq<DirEntry>,
    count: nat,
    d: int,
    found: Seq<u32>,
)
    requires
        dirs.len() == count + 1,
        found.len() == count,
        0 <= d,
    ensures
        named_from(dirs, entries, count, d, found).len() == count,
        count > 0 ==> named_from(dirs, entries, count, d, found)[0] == found[0],
    decreases count - d,
{
    if d < count {
        let next = match entry_range(dirs, entries.len(), d) {
            Some((begin, end)) => named_in(entries, count, begin, end, found),
            None => found,
        };
        if let Some((begin, end)) = entry_range(dirs, entries.len(), d) {
            lemma_named_in(entries, count, begin, end, found, 0);
        }
        lemma_named_from_root(dirs, entries, count, d + 1, next);
    }
}

proof fn lemma_parented_in(
    entries: Seq<DirEntry>,
    count: nat,
    e: int,
    end: int,
    parent: u32,
    acc: Seq<Directory>,
    c: int,
)
    requires
        0 <= c < count,
        acc.len() == count + 1,
    ensures
        ({
            let r = parented_in(entries, count, e, end, parent, acc);
            &&& r.len() == acc.len()
            &&& c == 0 ==> r[c] == acc[c]
            &&& (forall|j: int| e <= j < end ==> (#[trigger] entries[j]).inode_num != c) ==> r[c]
                == acc[c]
            &&& c > 0 && (exists|j: int| e <= j < end && (#[trigger] entries[j]).inode_num == c)
                ==> r[c].parent_entry == parent
            &&& forall|i: int|
                0 <= i < acc.len() ==> (#[trigger] r[i]).first_entry == acc[i].first_entry
        }),
    decreases end - e,
{
    if e < end {
        let child = entries[e].inode_num;
        let next = if is_child(child, count) {
            acc.update(child as int, Directory { parent_entry: parent, ..acc[child as int] })
        } else {
            acc
        };
        lemma_parented_in(entries, count, e + 1, end, parent, next, c);
        assert(forall|j: int| e + 1 <= j < end && (#[trigger] entries[j]).inode_num == c ==> e <= j
            < end);
        if forall|j: int| e + 1 <= j < end ==> (#[trigger] entries[j]).inode_num != c {
            if child == c && c > 0 {
                assert(next[c].parent_entry == parent);
            }
        }
    }
}

proof fn lemma_parented_from(
    dirs: Seq<Directory>,
    entries: Seq<DirEntry>,
    selfs: Seq<u32>,
    d: int,
    acc: Seq<Directory>,
    c: int,
    d0: int,
)
    requires
        dirs.len() == selfs.len() + 1 == acc.len(),
        0 <= c < selfs.len(),
        0 <= d,
        0 < c ==> 0 <= d0 < selfs.len() && (exists|e: int| #[trigger]
            names(dirs, entries, d0, e, c)) && (forall|dd: int, e: int|
            0 <= dd < selfs.len() && #[trigger] names(dirs, entries, dd, e, c) ==> dd == d0),
        0 < c && d > d0 ==> acc[c].parent_entry == selfs[d0],
    ensures
        ({
            let r = parented_from(dirs, entries, selfs, d, acc);
            &&& r.len() == acc.len()
            &&& 0 < c ==> r[c].parent_entry == selfs[d0]
            &&& c == 0 ==> r[c] == acc[c]
            &&& forall|i: int|
                0 <= i < acc.len() ==> (#[trigger] r[i]).first_entry == acc[i].first_entry
        }),
    decreases selfs.len() - d,
{
    if d < selfs.len() {
        let next = match entry_range(dirs, entries.len(), d) {
            Some((begin, end)) => parented_in(entries, selfs.len(), begin, end, selfs[d], acc),
            None => acc,
        };
        if let Some((begin, end)) = entry_range(dirs, entries.len(), d) {
            lemma_parented_in(entries, selfs.len(), begin, end, selfs[d], acc, c);
            assert forall|j: int|
                begin <= j < end && (#[trigger] entries[j]).inode_num == c && 0 < c implies d
                == d0 by {
                assert(names(dirs, entries, d, j, c));
            }
        }
        if 0 < c && d == d0 {
            let e = choose|e: int| #[trigger] names(dirs, entries, d0, e, c);
            assert(entries[e].inode_num == c);
        }
        lemma_parented_from(dirs, entries, selfs, d + 1, next, c, d0);
    }
}

/// Where exactly one entry, `e`, names directory `c`, and it stands in
/// directory `d`, the rebuilt `self_entry` of `c` is `e` and its
/// `parent_entry` is the `self_entry` of `d`. No `first_entry` changes.
pub proof fn lemma_links_follow_names(
    dirs: Seq<Directory>,
    entries: Seq<DirEntry>,
    c: int,
    d: int,
    e: int,
)
    requires
        0 < c < dirs.len() - 1,
        0 <= d < dirs.len() - 1,
        e > 0,
        names(dirs, entries, d, e, c),
        forall|dd: int, ee: int|
            0 <= dd < dirs.len() - 1 && #[trigger] names(dirs, entries, dd, ee, c) ==> dd == d && ee
                == e,
    ensures
        relinked(dirs, entries).len() == dirs.len(),
        relinked(dirs, entries)[c].self_entry == e,
        relinked(dirs, entries)[c].parent_entry == relinked(dirs, entries)[d].self_entry,
        forall|i: int|
            0 <= i < dirs.len() ==> (#[trigger] relinked(dirs, entries)[i]).first_entry
                == dirs[i].first_entry,
{
    let count = (dirs.len() - 1) as nat;
    let selfs = naming_entries(dirs, entries, count);
    lemma_named_from(dirs, entries, count, 0, Seq::new(count, |i: int| 0u32), c, d, e);
    lemma_parented_from(dirs, entries, selfs, 0, rooted(dirs), c, d);
}

/// No entry names the root: its rebuilt `self_entry` and `parent_entry`
/// are both zero.
pub proof fn lemma_root_links(dirs: Seq<Directory>, entries: Seq<DirEntry>)
    requires
        dirs.len() > 1,
    ensures
        relinked(dirs, entries)[0].self_entry == 0,
        relinked(dirs, entries)[0].parent_entry == 0,
{
    let count = (dirs.len() - 1) as nat;
    let selfs = naming_entries(dirs, entries, count);
    lemma_named_from_root(dirs, entries, count, 0, Seq::new(count, |i: int| 0u32));
    lemma_parented_from(dirs, entries, selfs, 0, rooted(dirs), 0, 0);
}

/// Whether some directory has an entry that names directory `c`.
pub open spec fn is_named(dirs: Seq<Directory>, entries: Seq<DirEntry>, c: int) -> bool {
    exists|d: int, e: int| 0 <= d < dirs.len() - 1 && #[trigger] names(dirs, entries, d, e, c)
}

/// Whether entry zero is the root's own and every other directory is named
/// by exactly one entry.
pub open spec fn named_once(dirs: Seq<Directory>, entries: Seq<DirEntry>) -> bool {
    &&& entries.len() > 0 && entries[0].inode_num == 0
    &&& forall|c: int| 0 < c < dirs.len() - 1 ==> #[trigger] is_named(dirs, entries, c)
    &&& forall|c: int, d: int, e: int, x: int, y: int|
        0 < c && 0 <= d < dirs.len() - 1 && 0 <= x < dirs.len() - 1 && #[trigger] names(
            dirs,
            entries,
            d,
            e,
            c,
        ) && #[trigger] names(dirs, entries, x, y, c) ==> d == x && e == y
}

/// Whether the `self_entry` of every directory is the entry that names it
/// and its `parent_entry` is the one that names its parent, both zero for
/// the root.
pub open spec fn filled_in(dirs: Seq<Directory>, entries: Seq<DirEntry>) -> bool {
    &&& dirs.len() > 1 ==> dirs[0].self_entry == 0 && dirs[0].parent_entry == 0
    &&& forall|d: int, e: int, c: int|
        0 < c < dirs.len() - 1 && 0 <= d < dirs.len() - 1 && #[trigger] names(
            dirs,
            entries,
            d,
            e,
            c,
        ) ==> dirs[c].self_entry == e && dirs[c].parent_entry == dirs[d].self_entry
}

/// Whether two tables give every directory the same entries.
pub open spec fn same_ranges(a: Seq<Directory>, b: Seq<Directory>) -> bool {
    &&& a.len() == b.len()
    &&& forall|i: int|
        0 <= i < a.len() ==> (#[trigger] a[i]).first_entry == (#[trigger] b[i]).first_entry
}

proof fn lemma_same_names(
    a: Seq<Directory>,
    b: Seq<Directory>,
    entries: Seq<DirEntry>,
    d: int,
    e: int,
    c: int,
)
    requires
        same_ranges(a, b),
        0 <= d < a.len() - 1,
    ensures
        names(a, entries, d, e, c) == names(b, entries, d, e, c),
{
    assert(a[d].first_entry == b[d].first_entry);
    assert(a[d + 1].first_entry == b[d + 1].first_entry);
}

/// Tables that give every directory the same entries name the same
/// directories.
pub proof fn lemma_same_named_once(
    a: Seq<Directory>,
    b: Seq<Directory>,
    entries: Seq<DirEntry>,
)
    requires
        same_ranges(a, b),
        named_once(a, entries),
    ensures
        named_once(b, entries),
{
    assert forall|c: int| 0 < c < b.len() - 1 implies #[trigger] is_named(b, entries, c) by {
        assert(is_named(a, entries, c));
        let (d, e) = choose|d: int, e: int|
            0 <= d < a.len() - 1 && #[trigger] names(a, entries, d, e, c);
        lemma_same_names(a, b, entries, d, e, c);
        assert(names(b, entries, d, e, c));
    }
    assert forall|c: int, d: int, e: int, x: int, y: int|
        0 < c && 0 <= d < b.len() - 1 && 0 <= x < b.len() - 1 && #[trigger] names(
            b,
            entries,
            d,
            e,
            c,
        ) && #[trigger] names(b, entries, x, y, c) implies d == x && e == y by {
        lemma_same_names(a, b, entries, d, e, c);
        lemma_same_names(a, b, entries, x, y, c);
    }
}

/// Rebuilding fills both columns in, where every directory is named once,
/// and leaves every directory its entries.
pub proof fn lemma_rebuilding_fills_in(dirs: Seq<Directory>, entries: Seq<DirEntry>)
    requires
        named_once(dirs, entries),
    ensures
        filled_in(relinked(dirs, entries), entries),
        same_ranges(dirs, relinked(dirs, entries)),
{
    let all = relinked(dirs, entries);
    if dirs.len() > 1 {
        lemma_root_links(dirs, entries);
    }
    lemma_ranges_stay(dirs, entries);
    assert forall|d: int, e: int, c: int|
        0 < c < all.len() - 1 && 0 <= d < all.len() - 1 && #[trigger] names(
            all,
            entries,
            d,
            e,
            c,
        ) implies all[c].self_entry == e && all[c].parent_entry == all[d].self_entry by {
        lemma_same_names(dirs, all, entries, d, e, c);
        assert(names(dirs, entries, d, e, c));
        assert(e != 0);
        lemma_links_follow_names(dirs, entries, c, d, e);
    }
}

/// Rebuilding gives back the columns of a table that has them filled in,
/// whatever stood there before.
pub proof fn lemma_rebuilding_restores(
    whole: Seq<Directory>,
    packed: Seq<Directory>,
    entries: Seq<DirEntry>,
)
    requires
        named_once(whole, entries),
        filled_in(whole, entries),
        same_ranges(whole, packed),
    ensures
        relinked(packed, entries).len() == whole.len(),
        forall|i: int|
            0 <= i < whole.len() - 1 ==> #[trigger] relinked(packed, entries)[i] == whole[i],
{
    let all = relinked(packed, entries);
    lemma_same_named_once(whole, packed, entries);
    lemma_rebuilding_fills_in(packed, entries);
    assert forall|i: int| 0 <= i < whole.len() implies (#[trigger] whole[i]).first_entry == (
    #[trigger] all[i]).first_entry by {
        assert(packed[i].first_entry == all[i].first_entry);
    }
    assert forall|i: int| 0 <= i < whole.len() - 1 implies #[trigger] all[i].self_entry
        == whole[i].self_entry by {
        lemma_restored_self(whole, all, entries, i);
    }
    assert forall|i: int| 0 <= i < whole.len() - 1 implies #[trigger] all[i] == whole[i] by {
        assert(packed[i].first_entry == whole[i].first_entry);
        assert(packed[i].first_entry == all[i].first_entry);
        assert(all[i].self_entry == whole[i].self_entry);
        if i > 0 {
            assert(is_named(whole, entries, i));
            let (d, e) = choose|d: int, e: int|
                0 <= d < whole.len() - 1 && #[trigger] names(whole, entries, d, e, i);
            lemma_same_names(whole, packed, entries, d, e, i);
            lemma_same_names(packed, all, entries, d, e, i);
            assert(names(all, entries, d, e, i));
            assert(all[d].self_entry == whole[d].self_entry);
        }
    }
}

proof fn lemma_restored_self(
    whole: Seq<Directory>,
    all: Seq<Directory>,
    entries: Seq<DirEntry>,
    i: int,
)
    requires
        named_once(whole, entries),
        filled_in(whole, entries),
        filled_in(all, entries),
        same_ranges(whole, all),
        0 <= i < whole.len() - 1,
    ensures
        all[i].self_entry == whole[i].self_entry,
{
    if i > 0 {
        assert(is_named(whole, entries, i));
        let (d, e) = choose|d: int, e: int|
            0 <= d < whole.len() - 1 && #[trigger] names(whole, entries, d, e, i);
        lemma_same_names(whole, all, entries, d, e, i);
        assert(names(all, entries, d, e, i));
    }
}

proof fn lemma_ranges_stay(dirs: Seq<Directory>, entries: Seq<DirEntry>)
    ensures
        same_ranges(dirs, relinked(dirs, entries)),
{
    if dirs.len() > 0 {
        let count = (dirs.len() - 1) as nat;
        let selfs = naming_entries(dirs, entries, count);
        lemma_named_from_root(dirs, entries, count, 0, Seq::new(count, |i: int| 0u32));
        if count > 0 {
            lemma_parented_from(dirs, entries, selfs, 0, rooted(dirs), 0, 0);
        }
    }
}

/// Turn the delta-packed `first_entry` column into running sums.
pub fn unpack_directory_first_entries(dirs: &mut [Directory])
    ensures
        final(dirs)@ == delta_unpacked(old(dirs)@),
{
    let ghost before = dirs@;
    let ghost firsts = first_entries(before);
    let mut acc: u32 = 0;
    let mut i: usize = 0;
    while i < dirs.len()
        invariant
            i <= dirs@.len() == before.len(),
            firsts == first_entries(before),
            acc == sum_of(firsts.take(i as int)) % 0x1_0000_0000,
            forall|j: int| 0 <= j < i ==> #[trigger] dirs@[j] == delta_unpacked(before)[j],
            forall|j: int| i <= j < before.len() ==> #[trigger] dirs@[j] == before[j],
        decreases dirs@.len() - i,
    {
        proof {
            lemma_sum_push(firsts, i as int);
        }
        let d: Directory = dirs[i];
        acc = acc.wrapping_add(d.first_entry);
        dirs[i] = Directory {
            parent_entry: d.parent_entry,
            first_entry: acc,
            self_entry: d.self_entry,
        };
        i = i + 1;
    }
    assert(dirs@ =~= delta_unpacked(before));
}

fn range_of_dir(dirs: &[Directory], entries: usize, d: usize) -> (r: Option<(usize, usize)>)
    requires
        d + 1 < dirs@.len(),
    ensures
        match r {
            Some((b, e)) => entry_range(dirs@, entries as nat, d as int) == Some(
                (b as int, e as int),
            ),
            None => entry_range(dirs@, entries as nat, d as int) is None,
        },
{
    let begin: usize = dirs[d].first_entry as usize;
    let end: usize = dirs[d + 1].first_entry as usize;
    if begin <= end && end <= entries {
        Some((begin, end))
    } else {
        None
    }
}

/// Rebuild the `parent_entry` and `self_entry` columns of a packed
/// directory table.
///
/// A packed table omits both columns; they are reconstructed by
/// traversing `dir_entries` once the `first_entry` column has been
/// delta-decompressed. `self_entry` of a directory is the index of the
/// entry naming it in its parent, and `parent_entry` is its parent's
/// `self_entry`. The root has no naming entry, so both are zero for it.
///
/// Ranges that fall outside `dir_entries` are skipped; the accessors
/// bound-check every index they use, so a corrupt table yields missing
/// links rather than a panic here.
pub fn rebuild_directory_links(dirs: &mut [Directory], dir_entries: &[DirEntry])
    ensures
        final(dirs)@ == relinked(old(dirs)@, dir_entries@),
{
    if dirs.len() == 0 {
        return;
    }
    let ghost before = dirs@;
    let dir_count: usize = dirs.len() - 1;
    let mut self_entry: Vec<u32> = vec![0u32; dir_count];
    assert(self_entry@ =~= Seq::new(dir_count as nat, |i: int| 0u32));
    let ghost want = naming_entries(before, dir_entries@, dir_count as nat);
    let mut d: usize = 0;
    while d < dir_count
        invariant
            d <= dir_count,
            dirs@ == before,
            before.len() == dir_count + 1,
            self_entry@.len() == dir_count,
            want == named_from(
                before,
                dir_entries@,
                dir_count as nat,
                d as int,
                self_entry@,
            ),
        decreases dir_count - d,
    {
        if let Some((begin, end)) = range_of_dir(dirs, dir_entries.len(), d) {
            let ghost goal = named_in(
                dir_entries@,
                dir_count as nat,
                begin as int,
                end as int,
                self_entry@,
            );
            let mut e: usize = begin;
            while e < end
                invariant
                    begin <= e <= end <= dir_entries@.len(),
                    end <= u32::MAX,
                    self_entry@.len() == dir_count,
                    goal == named_in(
                        dir_entries@,
                        dir_count as nat,
                        e as int,
                        end as int,
                        self_entry@,
                    ),
                decreases end - e,
            {
                let child: usize = dir_entries[e].inode_num as usize;
                if child < dir_count && child != 0 && self_entry[child] == 0 {
                    self_entry[child] = e as u32;
                }
                e = e + 1;
            }
        }
        d = d + 1;
    }
    if dir_count > 0 {
        let root: Directory = dirs[0];
        dirs[0] = Directory {
            parent_entry: 0,
            first_entry: root.first_entry,
            self_entry: root.self_entry,
        };
    }
    assert(dirs@ =~= rooted(before));
    let ghost goal = parented_from(before, dir_entries@, want, 0, rooted(before));
    d = 0;
    while d < dir_count
        invariant
            d <= dir_count,
            before.len() == dir_count + 1 == dirs@.len(),
            self_entry@ == want,
            want.len() == dir_count,
            forall|j: int|
                0 <= j < before.len() ==> (#[trigger] dirs@[j]).first_entry
                    == before[j].first_entry,
            goal == parented_from(before, dir_entries@, want, d as int, dirs@),
        decreases dir_count - d,
    {
        let parent_self: u32 = self_entry[d];
        if let Some((begin, end)) = range_of_dir(dirs, dir_entries.len(), d) {
            assert(dirs@[d as int].first_entry == before[d as int].first_entry);
            assert(dirs@[d + 1].first_entry == before[d + 1].first_entry);
            let ghost done = parented_in(
                dir_entries@,
                dir_count as nat,
                begin as int,
                end as int,
                parent_self,
                dirs@,
            );
            let mut e: usize = begin;
            while e < end
                invariant
                    begin <= e <= end <= dir_entries@.len(),
                    before.len() == dir_count + 1 == dirs@.len(),
                    forall|j: int|
                        0 <= j < before.len() ==> (#[trigger] dirs@[j]).first_entry
                            == before[j].first_entry,
                    done == parented_in(
                        dir_entries@,
                        dir_count as nat,
                        e as int,
                        end as int,
                        parent_self,
                        dirs@,
                    ),
                decreases end - e,
            {
                let child: usize = dir_entries[e].inode_num as usize;
                if child < dir_count && child != 0 {
                    let c: Directory = dirs[child];
                    dirs[child] = Directory {
                        parent_entry: parent_self,
                        first_entry: c.first_entry,
                        self_entry: c.self_entry,
                    };
                }
                e = e + 1;
            }
        } else {
            assert(dirs@[d as int].first_entry == before[d as int].first_entry);
            assert(dirs@[d + 1].first_entry == before[d + 1].first_entry);
        }
        d = d + 1;
    }
    let ghost all = relinked(before, dir_entries@);
    d = 0;
    while d < dir_count
        invariant
            d <= dir_count,
            before.len() == dir_count + 1 == dirs@.len(),
            self_entry@ == want,
            want.len() == dir_count,
            all == relinked(before, dir_entries@),
            want == naming_entries(before, dir_entries@, dir_count as nat),
            goal == parented_from(before, dir_entries@, want, 0, rooted(before)),
            forall|j: int| 0 <= j < d ==> #[trigger] dirs@[j] == all[j],
            forall|j: int| d <= j < before.len() ==> #[trigger] dirs@[j] == goal[j],
        decreases dir_count - d,
    {
        let c: Directory = dirs[d];
        dirs[d] = Directory {
            parent_entry: c.parent_entry,
            first_entry: c.first_entry,
            self_entry: self_entry[d],
        };
        d = d + 1;
    }
    assert(dirs@ =~= all);
}

impl Tables {
    /// Unpack the columns that the options say are packed.
    pub fn unpack(self) -> (r: Tables)
        ensures
            r@ == unpacked(self@),
    {
        let mut t = self;
        if t.options.packed_chunk_table {
            t.chunk_table = inclusive_prefix_sum_u32(t.chunk_table.as_slice());
        }
        if t.options.packed_directories {
            unpack_directory_first_entries(t.directories.as_mut_slice());
            rebuild_directory_links(t.directories.as_mut_slice(), t.dir_entries.as_slice());
        }
        t
    }
}

} // verus!
