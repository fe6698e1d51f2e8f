//! In what order an extraction writes, and what it does with each file.

use crate::error::ErrorView;
use crate::fs::extract::{
    Done, ExtractStats, ExtractionView, FileStep, entry_content, first_writers, key_le,
    relative, visit_key, visits,
};
use crate::fs::inode::InodeKind;
use crate::fs::tree::TreeView;
use crate::fs::walk::WalkView;
use vstd::prelude::*;

verus! {

/// A path from the root loses its first separator and nothing else.
pub proof fn lemma_relative_paths(path: Seq<u8>)
    ensures
        relative(seq![0x2fu8] + path) == path,
        path.len() > 0 && path[0] != 0x2f ==> relative(path) == path,
        relative(Seq::empty()) == Seq::<u8>::empty(),
{
    assert((seq![0x2fu8] + path).skip(1) =~= path);
}

/// Whether every picked entry is the first regular file with its content,
/// and they are picked in order.
pub open spec fn firsts_of(
    v: TreeView,
    entries: Seq<WalkView>,
    picked: Seq<usize>,
) -> bool {
    &&& forall|k: int, j: int|
        0 <= k < picked.len() && 0 <= j < picked[k] && (#[trigger] entries[j]).kind
            == InodeKind::Regular ==> entry_content(v, entries, j) != entry_content(
            v,
            entries,
            #[trigger] picked[k] as int,
        )
    &&& forall|a: int, b: int|
        0 <= a < b < picked.len() ==> #[trigger] picked[a] < #[trigger] picked[b]
}

proof fn lemma_firsts_from(
    v: TreeView,
    entries: Seq<WalkView>,
    i: nat,
    seen: Set<u32>,
    acc: Seq<usize>,
)
    requires
        i <= entries.len() <= usize::MAX,
        firsts_of(v, entries, acc),
        forall|k: int| 0 <= k < acc.len() ==> (#[trigger] acc[k]) < i,
        forall|j: int|
            0 <= j < i && (#[trigger] entries[j]).kind == InodeKind::Regular ==> seen.contains(
                entry_content(v, entries, j),
            ),
        first_writers(v, entries, i, seen, acc) is Ok,
    ensures
        firsts_of(v, entries, first_writers(v, entries, i, seen, acc)->Ok_0),
    decreases entries.len() - i,
{
    if i < entries.len() {
        if entries[i as int].kind != InodeKind::Regular {
            lemma_firsts_from(v, entries, i + 1, seen, acc);
        } else {
            let id = entry_content(v, entries, i as int);
            if seen.contains(id) {
                lemma_firsts_from(v, entries, i + 1, seen, acc);
            } else {
                let more = acc.push(i as usize);
                assert(firsts_of(v, entries, more)) by {
                    assert forall|k: int, j: int|
                        0 <= k < more.len() && 0 <= j < more[k] && (#[trigger] entries[j]).kind
                            == InodeKind::Regular implies entry_content(v, entries, j)
                        != entry_content(v, entries, #[trigger] more[k] as int) by {
                        if k < acc.len() {
                            assert(more[k] == acc[k]);
                        }
                    }
                    assert forall|a: int, b: int| 0 <= a < b < more.len() implies
                        #[trigger] more[a] < #[trigger] more[b] by {
                        assert(more[a] == acc[a]);
                        if b < acc.len() {
                            assert(more[b] == acc[b]);
                        }
                    }
                }
                lemma_firsts_from(v, entries, i + 1, seen.insert(id), more);
            }
        }
    }
}

/// A content is written for the first file that has it.
pub proof fn lemma_the_first_file_writes(v: TreeView, entries: Seq<WalkView>)
    requires
        entries.len() <= usize::MAX,
        first_writers(v, entries, 0, Set::empty(), Seq::empty()) is Ok,
    ensures
        firsts_of(v, entries, first_writers(v, entries, 0, Set::empty(), Seq::empty())->Ok_0),
{
    lemma_firsts_from(v, entries, 0, Set::empty(), Seq::empty());
}

/// Files are written block by block: of two, the one written earlier has no
/// first block, or one that is not behind the other's, and of files that
/// begin in one block the lower inode is written first.
pub proof fn lemma_files_are_written_block_by_block(
    v: TreeView,
    entries: Seq<WalkView>,
    firsts: Seq<usize>,
    order: Seq<usize>,
    i: int,
    j: int,
)
    requires
        visits(v, entries, firsts, order),
        0 <= i < j < order.len(),
    ensures
        ({
            let a = entries[order[i] as int].inode;
            let b = entries[order[j] as int].inode;
            match (v.first_block(a), v.first_block(b)) {
                (None, None) => a <= b,
                (None, Some(_)) => true,
                (Some(_), None) => false,
                (Some(x), Some(y)) => x < y || (x == y && a <= b),
            }
        }),
{
    assert(key_le(visit_key(v, entries, order[i]), visit_key(v, entries, order[j])));
}

/// Every first writer is written, and nothing else is.
pub proof fn lemma_every_first_writer_is_visited(
    v: TreeView,
    entries: Seq<WalkView>,
    firsts: Seq<usize>,
    order: Seq<usize>,
    entry: usize,
)
    requires
        visits(v, entries, firsts, order),
    ensures
        order.contains(entry) <==> firsts.contains(entry),
        order.len() == firsts.len(),
{
    broadcast use vstd::seq_lib::group_to_multiset_ensures;

    let key = |i: usize| visit_key(v, entries, i);
    let a = order.map_values(key);
    let b = firsts.map_values(key);
    if order.contains(entry) {
        let k = order.index_of(entry);
        assert(a[k] == key(entry));
        assert(a.contains(key(entry)));
        assert(a.to_multiset().count(key(entry)) > 0);
        assert(b.contains(key(entry)));
        let j = b.index_of(key(entry));
        assert(firsts[j] == entry);
    }
    if firsts.contains(entry) {
        let k = firsts.index_of(entry);
        assert(b[k] == key(entry));
        assert(b.contains(key(entry)));
        assert(b.to_multiset().count(key(entry)) > 0);
        assert(a.contains(key(entry)));
        let j = a.index_of(key(entry));
        assert(order[j] == entry);
    }
}

/// The first block of a file is that of the first chunk of its row in the
/// chunk table; a file with an empty row has none.
pub proof fn lemma_first_block_is_that_of_the_first_chunk(v: TreeView, inode: u32)
    requires
        v.chunk_range(inode) is Ok,
    ensures
        ({
            let row = v.slot(inode)->Ok_0 as int;
            let table = v.tables.chunk_table;
            if table[row] < table[row + 1] {
                v.first_block(inode) == Some(v.tables.chunks[table[row] as int].block)
            } else {
                v.first_block(inode) is None
            }
        }),
{
}

/// A file whose content was written already is not written again: it is
/// linked to the file that holds the content, or copied from it where links
/// are not wanted, and left alone where it is that file. Any other file is
/// written.
pub proof fn lemma_written_contents_are_shared(
    e: ExtractionView,
    content: u32,
    entry: usize,
    other: u32,
)
    ensures
        ({
            let after = ExtractionView { written: e.written.insert(content, entry), ..e };
            &&& after.file_step(content, true) == FileStep::Skip
            &&& e.hardlink_shared ==> after.file_step(content, false) == FileStep::Link(entry)
            &&& !e.hardlink_shared ==> after.file_step(content, false) == FileStep::Copy(entry)
            &&& other != content ==> after.file_step(other, true) == e.file_step(other, true)
                && after.file_step(other, false) == e.file_step(other, false)
        }),
        (ExtractionView { written: Map::empty(), ..e }).file_step(content, true)
            == FileStep::Write,
        (ExtractionView { written: Map::empty(), ..e }).file_step(content, false)
            == FileStep::Write,
{
}

/// Everything that is done is counted once, under what it was.
pub proof fn lemma_what_is_done_is_counted(s: ExtractStats, done: Done)
    requires
        s.directories < u64::MAX,
        s.files < u64::MAX,
        s.hardlinks < u64::MAX,
        s.symlinks < u64::MAX,
        s.skipped < u64::MAX,
    ensures
        ({
            let a = s.after(done);
            &&& a.directories - s.directories == (if done == Done::Directory {
                1int
            } else {
                0
            })
            &&& a.files - s.files == (if done == Done::File {
                1int
            } else {
                0
            })
            &&& a.hardlinks - s.hardlinks == (if done == Done::Hardlink {
                1int
            } else {
                0
            })
            &&& a.symlinks - s.symlinks == (if done == Done::Symlink {
                1int
            } else {
                0
            })
            &&& a.skipped - s.skipped == (if done == Done::Skipped {
                1int
            } else {
                0
            })
            &&& a.errors == s.errors
        }),
{
}

/// An extraction succeeds exactly where no entry failed, and then answers
/// with its counters.
pub proof fn lemma_failures_are_reported(e: ExtractionView)
    ensures
        e.stats.errors == 0 ==> e.outcome() == Ok::<ExtractStats, ErrorView>(e.stats),
        e.stats.errors > 0 ==> e.outcome() is Err,
{
}

} // verus!
