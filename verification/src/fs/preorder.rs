//! The order of a walk: every directory is followed by what it holds, entry
//! by entry, and nothing else is yielded.

use crate::fs::inode::InodeKind;
use crate::fs::tree::{ListingView, TreeView};
use crate::fs::walk::{WalkView, child_path, lemma_walk_ends};
use vstd::prelude::*;

verus! {

/// The walk entry of a listed entry in the directory at `prefix`.
pub open spec fn walked(prefix: Seq<u8>, entry: ListingView) -> WalkView {
    WalkView { path: child_path(prefix, entry.name), inode: entry.inode, kind: entry.kind }
}

/// The position of entry `j` of the directory at position `k`: the first
/// comes right after the directory, and each further one where the one
/// before it, with all that is below it, ends.
pub open spec fn child_at(ends: Seq<int>, k: int, j: nat) -> int
    decreases j,
{
    if j == 0 {
        k + 1
    } else {
        ends[child_at(ends, k, (j - 1) as nat)]
    }
}

/// Whether the entries of the directory at `k` up to entry `n` stand where
/// they belong.
pub open spec fn children_stand(
    w: Seq<WalkView>,
    ends: Seq<int>,
    k: int,
    list: Seq<ListingView>,
    n: nat,
) -> bool {
    forall|j: nat|
        j < n ==> k < #[trigger] child_at(ends, k, j) < w.len() && w[child_at(ends, k, j)]
            == walked(w[k].path, list[j as int])
}

/// Whether `ends[k]` is where the entry at `k` and all below it end: right
/// after it, or for a directory where the last entry of its listing ends,
/// with every entry of the listing in its place.
pub open spec fn node_stands(v: TreeView, w: Seq<WalkView>, ends: Seq<int>, k: int) -> bool {
    if w[k].kind == InodeKind::Directory {
        &&& v.read_dir(w[k].inode) is Ok
        &&& children_stand(w, ends, k, v.read_dir(w[k].inode)->Ok_0, v.read_dir(
            w[k].inode,
        )->Ok_0.len())
        &&& ends[k] == child_at(ends, k, v.read_dir(w[k].inode)->Ok_0.len())
        &&& k < ends[k] <= w.len()
    } else {
        ends[k] == k + 1
    }
}

/// Whether a sequence is the whole tree in pre-order: the root comes first,
/// every entry is followed by what is below it, which ends at `ends`, and
/// what is below the root is all there is.
pub open spec fn is_preorder(v: TreeView, w: Seq<WalkView>, ends: Seq<int>) -> bool {
    &&& w.len() == ends.len() > 0
    &&& w[0] == (WalkView { path: Seq::empty(), inode: 0, kind: InodeKind::Directory })
    &&& ends[0] == w.len()
    &&& forall|k: int| 0 <= k < w.len() ==> #[trigger] node_stands(v, w, ends, k)
}

proof fn lemma_child_at_kept(a: Seq<int>, b: Seq<int>, k: int, n: nat)
    requires
        a.len() <= b.len(),
        0 <= k,
        forall|i: int| k < i < a.len() ==> #[trigger] a[i] == b[i],
        forall|j: nat| j < n ==> k < #[trigger] child_at(a, k, j) < a.len(),
    ensures
        forall|j: nat| j <= n ==> child_at(a, k, j) == #[trigger] child_at(b, k, j),
    decreases n,
{
    if n > 0 {
        let less = (n - 1) as nat;
        lemma_child_at_kept(a, b, k, less);
        assert(child_at(a, k, less) == child_at(b, k, less));
        let p = child_at(a, k, less);
        assert(a[p] == b[p]);
        assert(child_at(a, k, n) == child_at(b, k, n));
    } else {
        assert(child_at(a, k, 0) == child_at(b, k, 0));
    }
}

proof fn lemma_children_kept(
    w: Seq<WalkView>,
    ends: Seq<int>,
    more: Seq<WalkView>,
    later: Seq<int>,
    k: int,
    list: Seq<ListingView>,
    n: nat,
)
    requires
        0 <= k,
        w.len() == ends.len() <= more.len() == later.len(),
        forall|i: int| k <= i < w.len() ==> #[trigger] more[i] == w[i],
        forall|i: int| k < i < w.len() ==> #[trigger] ends[i] == later[i],
        k < w.len(),
        children_stand(w, ends, k, list, n),
    ensures
        children_stand(more, later, k, list, n),
        child_at(later, k, n) == child_at(ends, k, n),
{
    lemma_child_at_kept(ends, later, k, n);
    assert(more[k] == w[k]);
    assert(child_at(later, k, n) == child_at(ends, k, n));
    assert forall|j: nat| j < n implies k < #[trigger] child_at(later, k, j) < more.len()
        && more[child_at(later, k, j)] == walked(more[k].path, list[j as int]) by {
        assert(child_at(ends, k, j) == child_at(later, k, j));
        let p = child_at(ends, k, j);
        assert(more[p] == w[p]);
    }
}

proof fn lemma_node_kept(
    v: TreeView,
    w: Seq<WalkView>,
    ends: Seq<int>,
    more: Seq<WalkView>,
    later: Seq<int>,
    k: int,
)
    requires
        0 <= k < w.len() == ends.len() <= more.len() == later.len(),
        forall|i: int| k <= i < w.len() ==> #[trigger] more[i] == w[i],
        forall|i: int| k <= i < w.len() ==> #[trigger] ends[i] == later[i],
        node_stands(v, w, ends, k),
    ensures
        node_stands(v, more, later, k),
{
    assert(more[k] == w[k]);
    assert(ends[k] == later[k]);
    if w[k].kind == InodeKind::Directory {
        let list = v.read_dir(w[k].inode)->Ok_0;
        lemma_children_kept(w, ends, more, later, k, list, list.len());
    }
}

/// What is below the directory at the last position of `acc` ends where
/// the walk of it does.
proof fn lemma_dir_stands(
    v: TreeView,
    prefix: Seq<u8>,
    inode: u32,
    depth: nat,
    acc: Seq<WalkView>,
    ends: Seq<int>,
) -> (r: Seq<int>)
    requires
        v.finish(inode, depth) is Some,
        v.walk_dir(inode, prefix, depth, acc) is Ok,
        0 < acc.len() == ends.len(),
        acc.last() == (WalkView { path: prefix, inode, kind: InodeKind::Directory }),
    ensures
        ({
            let w = v.walk_dir(inode, prefix, depth, acc)->Ok_0;
            let k = acc.len() - 1;
            &&& r.len() == w.len() >= acc.len()
            &&& forall|i: int| 0 <= i < acc.len() ==> #[trigger] w[i] == acc[i]
            &&& forall|i: int| 0 <= i < k ==> #[trigger] r[i] == ends[i]
            &&& r[k] == w.len()
            &&& forall|i: int| k <= i < w.len() ==> #[trigger] node_stands(v, w, r, i)
        }),
    decreases depth, 0nat,
{
    let w = v.walk_dir(inode, prefix, depth, acc)->Ok_0;
    let k = acc.len() - 1;
    let list = v.read_dir(inode)->Ok_0;
    let less = (depth - 1) as nat;
    let below = lemma_list_stands(v, list, 0, prefix, less, acc, ends, k);
    let r = below.update(k, w.len() as int);
    lemma_children_kept(w, below, w, r, k, list, list.len());
    assert(w[k] == acc[k]);
    assert forall|i: int| k <= i < w.len() implies #[trigger] node_stands(v, w, r, i) by {
        if i > k {
            assert(node_stands(v, w, below, i));
            lemma_node_kept(v, w, below, w, r, i);
        }
    }
    r
}

/// The same of the entries from entry `i` on of the directory at `k`.
proof fn lemma_list_stands(
    v: TreeView,
    list: Seq<ListingView>,
    i: nat,
    prefix: Seq<u8>,
    depth: nat,
    acc: Seq<WalkView>,
    ends: Seq<int>,
    k: int,
) -> (r: Seq<int>)
    requires
        v.finish_list(list, i, depth) is Some,
        v.walk_list(list, i, prefix, depth, acc) is Ok,
        i <= list.len(),
        0 <= k < acc.len() == ends.len(),
        acc[k].path == prefix,
        child_at(ends, k, i) == acc.len(),
        children_stand(acc, ends, k, list, i),
        forall|m: int| k < m < acc.len() ==> #[trigger] node_stands(v, acc, ends, m),
    ensures
        ({
            let w = v.walk_list(list, i, prefix, depth, acc)->Ok_0;
            &&& r.len() == w.len() >= acc.len()
            &&& forall|m: int| 0 <= m < acc.len() ==> #[trigger] w[m] == acc[m]
            &&& forall|m: int| 0 <= m < acc.len() ==> #[trigger] r[m] == ends[m]
            &&& child_at(r, k, list.len()) == w.len()
            &&& children_stand(w, r, k, list, list.len())
            &&& forall|m: int| k < m < w.len() ==> #[trigger] node_stands(v, w, r, m)
        }),
    decreases depth, list.len() - i + 1,
{
    if i >= list.len() {
        ends
    } else {
        let entry = list[i as int];
        let path = child_path(prefix, entry.name);
        let node = WalkView { path, inode: entry.inode, kind: entry.kind };
        let with = acc.push(node);
        let p = acc.len() as int;
        let (next, step) = if entry.kind == InodeKind::Directory {
            lemma_walk_ends(v, entry.inode, path, depth, depth, with);
            let below = v.walk_dir(entry.inode, path, depth, with)->Ok_0;
            (below, lemma_dir_stands(v, path, entry.inode, depth, with, ends.push(0)))
        } else {
            (with, ends.push(p + 1))
        };
        assert forall|m: int| 0 <= m < acc.len() implies #[trigger] next[m] == acc[m] by {
            assert(with[m] == acc[m]);
            assert(next[m] == with[m]);
        }
        assert forall|m: int| 0 <= m < acc.len() implies #[trigger] step[m] == ends[m] by {
            assert(ends.push(0)[m] == ends[m]);
        }
        assert(with[p] == node);
        assert(next[p] == node);
        assert(step[p] == next.len());
        lemma_children_kept(acc, ends, next, step, k, list, i);
        assert(child_at(step, k, i) == p);
        assert(child_at(step, k, i + 1) == step[p]);
        assert(next[k] == acc[k]);
        assert(children_stand(next, step, k, list, i + 1)) by {
            assert forall|j: nat| j < i + 1 implies k < #[trigger] child_at(step, k, j) < next.len()
                && next[child_at(step, k, j)] == walked(next[k].path, list[j as int]) by {
                if j == i {
                    assert(child_at(step, k, j) == p);
                }
            }
        }
        assert forall|m: int| k < m < next.len() implies #[trigger] node_stands(
            v,
            next,
            step,
            m,
        ) by {
            if m < p {
                assert(node_stands(v, acc, ends, m));
                lemma_node_kept(v, acc, ends, next, step, m);
            }
        }
        lemma_list_stands(v, list, i + 1, prefix, depth, next, step, k)
    }
}

/// A walk yields the whole tree in pre-order.
pub proof fn lemma_walk_is_preorder(v: TreeView, depth: nat) -> (ends: Seq<int>)
    requires
        v.finish(0, depth) is Some,
        v.walk(depth) is Ok,
    ensures
        is_preorder(v, v.walk(depth)->Ok_0, ends),
{
    let kind = v.kind(0)->Ok_0;
    let root = WalkView { path: Seq::<u8>::empty(), inode: 0, kind };
    assert(kind == InodeKind::Directory);
    let acc = seq![root];
    let w = v.walk(depth)->Ok_0;
    let ends = lemma_dir_stands(v, Seq::empty(), 0, depth, acc, seq![0int]);
    assert(w[0] == acc[0]);
    ends
}

proof fn lemma_children_ascend(v: TreeView, w: Seq<WalkView>, ends: Seq<int>, k: int, j: nat, n: nat)
    requires
        0 <= k < w.len() == ends.len(),
        forall|i: int| 0 <= i < w.len() ==> #[trigger] node_stands(v, w, ends, i),
        forall|i: nat| i < n ==> k < #[trigger] child_at(ends, k, i) < w.len(),
        j <= n,
    ensures
        child_at(ends, k, j) <= child_at(ends, k, n),
        j < n ==> child_at(ends, k, j) < child_at(ends, k, n),
    decreases n,
{
    if j < n {
        let less = (n - 1) as nat;
        lemma_children_ascend(v, w, ends, k, j, less);
        assert(k < child_at(ends, k, less) < w.len());
        assert(node_stands(v, w, ends, child_at(ends, k, less)));
    }
}

proof fn lemma_same_below(
    v: TreeView,
    a: Seq<WalkView>,
    ea: Seq<int>,
    b: Seq<WalkView>,
    eb: Seq<int>,
    x: int,
    y: int,
)
    requires
        a.len() == ea.len(),
        b.len() == eb.len(),
        forall|i: int| 0 <= i < a.len() ==> #[trigger] node_stands(v, a, ea, i),
        forall|i: int| 0 <= i < b.len() ==> #[trigger] node_stands(v, b, eb, i),
        0 <= x < a.len(),
        0 <= y < b.len(),
        a[x] == b[y],
    ensures
        x < ea[x],
        ea[x] - x == eb[y] - y,
        forall|i: int| 0 <= i < ea[x] - x ==> a[x + i] == #[trigger] b[y + i],
    decreases ea[x] - x, v.read_dir(a[x].inode)->Ok_0.len() + 1,
{
    assert(node_stands(v, a, ea, x));
    assert(node_stands(v, b, eb, y));
    if a[x].kind == InodeKind::Directory {
        lemma_same_children(v, a, ea, b, eb, x, y, v.read_dir(a[x].inode)->Ok_0.len());
    }
}

proof fn lemma_same_children(
    v: TreeView,
    a: Seq<WalkView>,
    ea: Seq<int>,
    b: Seq<WalkView>,
    eb: Seq<int>,
    x: int,
    y: int,
    j: nat,
)
    requires
        a.len() == ea.len(),
        b.len() == eb.len(),
        forall|i: int| 0 <= i < a.len() ==> #[trigger] node_stands(v, a, ea, i),
        forall|i: int| 0 <= i < b.len() ==> #[trigger] node_stands(v, b, eb, i),
        0 <= x < a.len(),
        0 <= y < b.len(),
        a[x] == b[y],
        a[x].kind == InodeKind::Directory,
        x < ea[x],
        j <= v.read_dir(a[x].inode)->Ok_0.len(),
    ensures
        child_at(ea, x, j) - x == child_at(eb, y, j) - y,
        forall|i: int| 0 <= i < child_at(ea, x, j) - x ==> a[x + i] == #[trigger] b[y + i],
    decreases ea[x] - x, j,
{
    assert(node_stands(v, a, ea, x));
    assert(node_stands(v, b, eb, y));
    if j > 0 {
        let less = (j - 1) as nat;
        let n = v.read_dir(a[x].inode)->Ok_0.len();
        lemma_same_children(v, a, ea, b, eb, x, y, less);
        let p = child_at(ea, x, less);
        let q = child_at(eb, y, less);
        assert(x < p < a.len());
        assert(y < q < b.len());
        lemma_children_ascend(v, a, ea, x, j, n);
        assert(node_stands(v, a, ea, p));
        lemma_same_below(v, a, ea, b, eb, p, q);
        assert forall|i: int| 0 <= i < child_at(ea, x, j) - x implies a[x + i]
            == #[trigger] b[y + i] by {
            if i >= p - x {
                assert(a[p + (i - (p - x))] == b[q + (i - (p - x))]);
            }
        }
    }
}

/// There is one pre-order of a tree.
pub proof fn lemma_one_preorder(
    v: TreeView,
    a: Seq<WalkView>,
    ends_a: Seq<int>,
    b: Seq<WalkView>,
    ends_b: Seq<int>,
)
    requires
        is_preorder(v, a, ends_a),
        is_preorder(v, b, ends_b),
    ensures
        a == b,
{
    lemma_same_below(v, a, ends_a, b, ends_b, 0, 0);
    assert forall|i: int| 0 <= i < a.len() implies a[i] == b[i] by {
        assert(a[0 + i] == b[0 + i]);
    }
    assert(a =~= b);
}

} // verus!
