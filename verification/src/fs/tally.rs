//! What a whole extraction counts when nothing fails.

use crate::error::ErrorView;
use crate::fs::extract::{
    Done, ExtractStats, ExtractionView, FileStep, covers_contents, entry_content, first_writers,
    has_content, lemma_each_content_is_written_once, visit_key, visits,
};
use crate::fs::inode::InodeKind;
use crate::fs::tree::TreeView;
use crate::fs::walk::WalkView;
use vstd::prelude::*;

verus! {

/// How many of the first `n` entries are of a kind.
pub open spec fn count_of(entries: Seq<WalkView>, kind: InodeKind, n: nat) -> nat
    decreases n,
{
    if n == 0 {
        0
    } else {
        count_of(entries, kind, (n - 1) as nat) + (if entries[n - 1].kind == kind {
            1nat
        } else {
            0nat
        })
    }
}

/// How many of the first `n` entries cannot be extracted: they are neither
/// directories, nor regular files, nor symlinks.
pub open spec fn count_of_others(entries: Seq<WalkView>, n: nat) -> nat
    decreases n,
{
    if n == 0 {
        0
    } else {
        let kind = entries[n - 1].kind;
        count_of_others(entries, (n - 1) as nat) + (if kind == InodeKind::Directory || kind
            == InodeKind::Regular || kind == InodeKind::Symlink {
            0nat
        } else {
            1nat
        })
    }
}

/// An extraction after something was done for an entry.
pub open spec fn did(x: ExtractionView, done: Done) -> ExtractionView {
    ExtractionView { stats: x.stats.after(done), ..x }
}

/// After the directories among the first `n` entries were made.
pub open spec fn made_directories(x: ExtractionView, entries: Seq<WalkView>, n: nat) ->
    ExtractionView
    decreases n,
{
    if n == 0 {
        x
    } else {
        let before = made_directories(x, entries, (n - 1) as nat);
        if entries[n - 1].kind == InodeKind::Directory {
            did(before, Done::Directory)
        } else {
            before
        }
    }
}

/// After the first `n` of the files in `order` were written.
pub open spec fn wrote_files(
    x: ExtractionView,
    v: TreeView,
    entries: Seq<WalkView>,
    order: Seq<usize>,
    n: nat,
) -> ExtractionView
    decreases n,
{
    if n == 0 {
        x
    } else {
        let before = did(wrote_files(x, v, entries, order, (n - 1) as nat), Done::File);
        let i = order[n - 1];
        ExtractionView {
            written: before.written.insert(entry_content(v, entries, i as int), i),
            ..before
        }
    }
}

/// After an entry was come back to once the files were written.
pub open spec fn settled(x: ExtractionView, v: TreeView, entries: Seq<WalkView>, i: int) ->
    ExtractionView {
    let content = entry_content(v, entries, i);
    if entries[i].kind == InodeKind::Directory {
        x
    } else if entries[i].kind == InodeKind::Regular {
        match x.file_step(content, x.written[content] == i) {
            FileStep::Skip => x,
            FileStep::Link(_) => did(x, Done::Hardlink),
            FileStep::Copy(_) => did(x, Done::File),
            FileStep::Write => ExtractionView {
                written: x.written.insert(content, i as usize),
                ..did(x, Done::File)
            },
        }
    } else if entries[i].kind == InodeKind::Symlink {
        did(x, Done::Symlink)
    } else {
        did(x, Done::Skipped)
    }
}

/// After the first `n` entries were come back to.
pub open spec fn settled_all(x: ExtractionView, v: TreeView, entries: Seq<WalkView>, n: nat) ->
    ExtractionView
    decreases n,
{
    if n == 0 {
        x
    } else {
        settled(settled_all(x, v, entries, (n - 1) as nat), v, entries, n - 1)
    }
}

/// After a whole extraction in which nothing fails: the directories are
/// made, the files of `order` are written, and every entry is come back to.
pub open spec fn extracted(
    x: ExtractionView,
    v: TreeView,
    entries: Seq<WalkView>,
    order: Seq<usize>,
) -> ExtractionView {
    settled_all(
        wrote_files(made_directories(x, entries, entries.len()), v, entries, order, order.len()),
        v,
        entries,
        entries.len(),
    )
}

proof fn lemma_counts_fit(entries: Seq<WalkView>, kind: InodeKind, n: nat)
    ensures
        count_of(entries, kind, n) <= n,
        count_of_others(entries, n) <= n,
    decreases n,
{
    if n > 0 {
        lemma_counts_fit(entries, kind, (n - 1) as nat);
    }
}

proof fn lemma_made_directories(x: ExtractionView, entries: Seq<WalkView>, n: nat)
    requires
        x.stats == ExtractStats::zero(),
        n <= u64::MAX,
    ensures
        made_directories(x, entries, n) == (ExtractionView {
            stats: ExtractStats {
                directories: count_of(entries, InodeKind::Directory, n) as u64,
                ..ExtractStats::zero()
            },
            ..x
        }),
    decreases n,
{
    lemma_counts_fit(entries, InodeKind::Directory, n);
    if n > 0 {
        lemma_made_directories(x, entries, (n - 1) as nat);
        lemma_counts_fit(entries, InodeKind::Directory, (n - 1) as nat);
    }
}

proof fn lemma_wrote_files(
    x: ExtractionView,
    v: TreeView,
    entries: Seq<WalkView>,
    order: Seq<usize>,
    n: nat,
)
    requires
        x.stats.files == 0,
        x.written == Map::<u32, usize>::empty(),
        n <= order.len() <= u64::MAX,
        forall|a: int, b: int|
            0 <= a < b < order.len() ==> entry_content(v, entries, #[trigger] order[a] as int)
                != entry_content(v, entries, #[trigger] order[b] as int),
    ensures
        ({
            let r = wrote_files(x, v, entries, order, n);
            &&& r.stats == (ExtractStats { files: n as u64, ..x.stats })
            &&& r.hardlink_shared == x.hardlink_shared
            &&& r.continue_on_error == x.continue_on_error
            &&& forall|k: int|
                0 <= k < n ==> r.written.contains_key(
                    entry_content(v, entries, #[trigger] order[k] as int),
                ) && r.written[entry_content(v, entries, order[k] as int)] == order[k]
            &&& forall|c: u32| #[trigger]
                r.written.contains_key(c) ==> exists|k: int|
                    0 <= k < n && entry_content(v, entries, #[trigger] order[k] as int) == c
        }),
    decreases n,
{
    if n > 0 {
        let less = (n - 1) as nat;
        lemma_wrote_files(x, v, entries, order, less);
        let before = wrote_files(x, v, entries, order, less);
        let r = wrote_files(x, v, entries, order, n);
        assert forall|c: u32| #[trigger] r.written.contains_key(c) implies exists|k: int|
            0 <= k < n && entry_content(v, entries, #[trigger] order[k] as int) == c by {
            if before.written.contains_key(c) {
                let k = choose|k: int|
                    0 <= k < less && entry_content(v, entries, #[trigger] order[k] as int) == c;
                assert(0 <= k < n && entry_content(v, entries, order[k] as int) == c);
            } else {
                assert(entry_content(v, entries, order[less as int] as int) == c);
            }
        }
        assert forall|k: int| 0 <= k < n implies r.written.contains_key(
            entry_content(v, entries, #[trigger] order[k] as int),
        ) && r.written[entry_content(v, entries, order[k] as int)] == order[k] by {
            if k < less {
                assert(entry_content(v, entries, order[k] as int) != entry_content(
                    v,
                    entries,
                    order[less as int] as int,
                ));
            }
        }
    }
}

/// How many of the first `n` indices are in `order`.
spec fn count_in(order: Seq<usize>, n: nat) -> nat
    decreases n,
{
    if n == 0 {
        0
    } else {
        count_in(order, (n - 1) as nat) + (if order.contains((n - 1) as usize) {
            1nat
        } else {
            0nat
        })
    }
}

proof fn lemma_count_in(order: Seq<usize>, n: nat)
    requires
        n <= usize::MAX,
    ensures
        Set::new(|i: usize| i < n && order.contains(i)).finite(),
        Set::new(|i: usize| i < n && order.contains(i)).len() == count_in(order, n),
    decreases n,
{
    let all = Set::new(|i: usize| i < n && order.contains(i));
    if n == 0 {
        assert(all =~= Set::empty());
    } else {
        let less = (n - 1) as nat;
        lemma_count_in(order, less);
        let before = Set::new(|i: usize| i < less && order.contains(i));
        if order.contains(less as usize) {
            assert(all =~= before.insert(less as usize));
        } else {
            assert(all =~= before);
        }
    }
}

proof fn lemma_all_counted(order: Seq<usize>, n: nat)
    requires
        n <= usize::MAX,
        order.no_duplicates(),
        forall|k: int| 0 <= k < order.len() ==> #[trigger] order[k] < n,
    ensures
        count_in(order, n) == order.len(),
{
    lemma_count_in(order, n);
    order.unique_seq_to_set();
    assert(Set::new(|i: usize| i < n && order.contains(i)) =~= order.to_set()) by {
        assert forall|i: usize| order.contains(i) implies i < n by {
            let k = order.index_of(i);
            assert(order[k] < n);
        }
    }
}

/// The files in visiting order are those that write first, each once.
proof fn lemma_order_is_firsts(
    v: TreeView,
    entries: Seq<WalkView>,
    firsts: Seq<usize>,
    order: Seq<usize>,
)
    requires
        visits(v, entries, firsts, order),
        firsts.no_duplicates(),
    ensures
        order.no_duplicates(),
        forall|i: usize| #[trigger] order.contains(i) <==> firsts.contains(i),
{
    broadcast use vstd::seq_lib::group_to_multiset_ensures;

    let key = |i: usize| visit_key(v, entries, i);
    let a = order.map_values(key);
    let b = firsts.map_values(key);
    assert(b.no_duplicates()) by {
        assert forall|i: int, j: int| 0 <= i < b.len() && 0 <= j < b.len() && i != j implies b[i]
            != b[j] by {
            assert(firsts[i] != firsts[j]);
        }
    }
    b.lemma_multiset_has_no_duplicates();
    assert(a.to_multiset() == b.to_multiset());
    assert forall|x: (u64, u32, usize)| a.to_multiset().contains(x) implies a.to_multiset().count(
        x,
    ) == 1 by {
        assert(b.to_multiset().contains(x));
    }
    a.lemma_multiset_has_no_duplicates_conv();
    assert(order.no_duplicates()) by {
        assert forall|i: int, j: int|
            0 <= i < order.len() && 0 <= j < order.len() && i != j implies order[i]
            != order[j] by {
            assert(a[i] != a[j]);
        }
    }
    assert forall|i: usize| #[trigger] order.contains(i) <==> firsts.contains(i) by {
        if order.contains(i) {
            let k = order.index_of(i);
            assert(a[k] == key(i));
            assert(a.contains(key(i)));
            assert(b.to_multiset().count(key(i)) > 0);
            assert(b.contains(key(i)));
            let j = b.index_of(key(i));
            assert(firsts[j] == i);
        }
        if firsts.contains(i) {
            let k = firsts.index_of(i);
            assert(b[k] == key(i));
            assert(b.contains(key(i)));
            assert(a.to_multiset().count(key(i)) > 0);
            assert(a.contains(key(i)));
            let j = a.index_of(key(i));
            assert(order[j] == i);
        }
    }
}

proof fn lemma_settled_all(
    x: ExtractionView,
    v: TreeView,
    entries: Seq<WalkView>,
    order: Seq<usize>,
    n: nat,
)
    requires
        n <= entries.len() <= usize::MAX,
        x.stats.files == order.len(),
        x.stats.hardlinks == 0,
        x.stats.symlinks == 0,
        x.stats.skipped == 0,
        order.len() <= count_of(entries, InodeKind::Regular, entries.len()),
        forall|i: int|
            0 <= i < entries.len() && (#[trigger] entries[i]).kind == InodeKind::Regular
                ==> x.written.contains_key(entry_content(v, entries, i)) && (x.written[
                entry_content(v, entries, i)] == i <==> order.contains(i as usize)),
        forall|k: int|
            0 <= k < order.len() ==> (#[trigger] order[k]) < entries.len()
                && entries[order[k] as int].kind == InodeKind::Regular,
    ensures
        ({
            let r = settled_all(x, v, entries, n);
            let links = count_of(entries, InodeKind::Regular, n) - count_in(order, n);
            &&& r.written == x.written
            &&& r.hardlink_shared == x.hardlink_shared
            &&& 0 <= links <= n
            &&& r.stats.directories == x.stats.directories
            &&& r.stats.errors == x.stats.errors
            &&& r.stats.symlinks == count_of(entries, InodeKind::Symlink, n)
            &&& r.stats.skipped == count_of_others(entries, n)
            &&& x.hardlink_shared ==> r.stats.files == order.len() && r.stats.hardlinks == links
            &&& !x.hardlink_shared ==> (r.stats.hardlinks == 0 && (order.len() + links <= u64::MAX
                ==> r.stats.files == order.len() + links))
        }),
    decreases n,
{
    lemma_counts_fit(entries, InodeKind::Regular, n);
    lemma_counts_fit(entries, InodeKind::Symlink, n);
    if n > 0 {
        let less = (n - 1) as nat;
        lemma_settled_all(x, v, entries, order, less);
        lemma_counts_fit(entries, InodeKind::Regular, less);
        lemma_counts_fit(entries, InodeKind::Symlink, less);
        if order.contains(less as usize) {
            let k = order.index_of(less as usize);
            assert(order[k] == less);
            assert(entries[less as int].kind == InodeKind::Regular);
        }
        assert(entries[less as int].kind == InodeKind::Regular ==> x.written.contains_key(
            entry_content(v, entries, less as int),
        ));
    }
}

/// The counters of a whole extraction in which nothing fails: every
/// selected directory and symlink is made, every other kind skipped, and
/// every regular file written or linked, each content written once where
/// links are made.
pub proof fn lemma_extraction_counts_everything(
    x: ExtractionView,
    v: TreeView,
    entries: Seq<WalkView>,
    order: Seq<usize>,
)
    requires
        entries.len() <= usize::MAX,
        x.stats == ExtractStats::zero(),
        x.written == Map::<u32, usize>::empty(),
        first_writers(v, entries, 0, Set::empty(), Seq::empty()) is Ok,
        visits(
            v,
            entries,
            first_writers(v, entries, 0, Set::empty(), Seq::empty())->Ok_0,
            order,
        ),
    ensures
        ({
            let r = extracted(x, v, entries, order).stats;
            &&& r.directories == count_of(entries, InodeKind::Directory, entries.len())
            &&& r.files + r.hardlinks == count_of(entries, InodeKind::Regular, entries.len())
            &&& r.symlinks == count_of(entries, InodeKind::Symlink, entries.len())
            &&& r.skipped == count_of_others(entries, entries.len())
            &&& r.errors == 0
            &&& x.hardlink_shared ==> r.files == order.len()
            &&& !x.hardlink_shared ==> r.hardlinks == 0
            &&& extracted(x, v, entries, order).outcome() == Ok::<ExtractStats, ErrorView>(r)
        }),
        order.no_duplicates(),
        covers_contents(v, entries, entries.len() as int, order),
{
    let firsts = first_writers(v, entries, 0, Set::empty(), Seq::empty())->Ok_0;
    lemma_each_content_is_written_once(v, entries);
    assert(firsts.no_duplicates()) by {
        assert forall|a: int, b: int|
            0 <= a < firsts.len() && 0 <= b < firsts.len() && a != b implies firsts[a]
            != firsts[b] by {
            if a < b {
                assert(entry_content(v, entries, firsts[a] as int) != entry_content(
                    v,
                    entries,
                    firsts[b] as int,
                ));
            } else {
                assert(entry_content(v, entries, firsts[b] as int) != entry_content(
                    v,
                    entries,
                    firsts[a] as int,
                ));
            }
        }
    }
    lemma_order_is_firsts(v, entries, firsts, order);
    lemma_order_covers(v, entries, firsts, order);
    let n = entries.len();
    lemma_made_directories(x, entries, n);
    let made = made_directories(x, entries, n);
    lemma_all_counted(order, n);
    lemma_counted_regular(entries, order, n);
    lemma_counts_fit(entries, InodeKind::Regular, n);
    lemma_counts_fit(entries, InodeKind::Directory, n);
    lemma_wrote_files(made, v, entries, order, order.len());
    let wrote = wrote_files(made, v, entries, order, order.len());
    assert forall|i: int|
        0 <= i < entries.len() && (#[trigger] entries[i]).kind == InodeKind::Regular implies
        wrote.written.contains_key(entry_content(v, entries, i)) && (wrote.written[entry_content(
            v,
            entries,
            i,
        )] == i <==> order.contains(i as usize)) by {
        let c = entry_content(v, entries, i);
        assert(has_content(v, entries, order, c));
        let k = choose|k: int|
            0 <= k < order.len() && entry_content(v, entries, #[trigger] order[k] as int) == c;
        assert(wrote.written[entry_content(v, entries, order[k] as int)] == order[k]);
        if order.contains(i as usize) {
            let j = order.index_of(i as usize);
            assert(entry_content(v, entries, order[j] as int) == c);
            assert(j == k);
        }
        if wrote.written[c] == i {
            assert(order[k] == i as usize);
        }
    }
    lemma_settled_all(wrote, v, entries, order, n);
}

proof fn lemma_order_covers(
    v: TreeView,
    entries: Seq<WalkView>,
    firsts: Seq<usize>,
    order: Seq<usize>,
)
    requires
        covers_contents(v, entries, entries.len() as int, firsts),
        firsts.no_duplicates(),
        order.no_duplicates(),
        forall|i: usize| #[trigger] order.contains(i) <==> firsts.contains(i),
    ensures
        covers_contents(v, entries, entries.len() as int, order),
{
    assert forall|k: int| 0 <= k < order.len() implies (#[trigger] order[k]) < entries.len()
        && entries[order[k] as int].kind == InodeKind::Regular by {
        assert(order.contains(order[k]));
        let j = firsts.index_of(order[k]);
        assert(firsts[j] == order[k]);
    }
    assert forall|a: int, b: int| 0 <= a < b < order.len() implies entry_content(
        v,
        entries,
        #[trigger] order[a] as int,
    ) != entry_content(v, entries, #[trigger] order[b] as int) by {
        assert(order.contains(order[a]));
        assert(order.contains(order[b]));
        let p = firsts.index_of(order[a]);
        let q = firsts.index_of(order[b]);
        assert(firsts[p] == order[a] && firsts[q] == order[b]);
        assert(order[a] != order[b]);
        if p < q {
            assert(entry_content(v, entries, firsts[p] as int) != entry_content(
                v,
                entries,
                firsts[q] as int,
            ));
        } else {
            assert(entry_content(v, entries, firsts[q] as int) != entry_content(
                v,
                entries,
                firsts[p] as int,
            ));
        }
    }
    assert forall|j: int|
        0 <= j < entries.len() && (#[trigger] entries[j]).kind == InodeKind::Regular implies
        has_content(v, entries, order, entry_content(v, entries, j)) by {
        let c = entry_content(v, entries, j);
        assert(has_content(v, entries, firsts, c));
        let k = choose|k: int|
            0 <= k < firsts.len() && entry_content(v, entries, #[trigger] firsts[k] as int) == c;
        assert(firsts.contains(firsts[k]));
        assert(order.contains(firsts[k]));
        let m = order.index_of(firsts[k]);
        assert(order[m] == firsts[k]);
    }
}

proof fn lemma_counted_regular(entries: Seq<WalkView>, order: Seq<usize>, n: nat)
    requires
        n <= entries.len() <= usize::MAX,
        forall|k: int|
            0 <= k < order.len() ==> (#[trigger] order[k]) < entries.len()
                && entries[order[k] as int].kind == InodeKind::Regular,
    ensures
        count_in(order, n) <= count_of(entries, InodeKind::Regular, n),
    decreases n,
{
    if n > 0 {
        let less = (n - 1) as nat;
        lemma_counted_regular(entries, order, less);
        if order.contains(less as usize) {
            let k = order.index_of(less as usize);
            assert(order[k] == less);
        }
    }
}

} // verus!
