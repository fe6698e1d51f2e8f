//! Depth-first traversal of the directory tree.

use crate::collect::{collect, lemma_collect_ok};
use crate::error::{Error, ErrorView};
use crate::format::source::ImageSource;
use crate::fs::inode::InodeKind;
use crate::fs::read::Filesystem;
use crate::fs::tree::{Listing, ListingView, Tree, TreeView, listings};
use vstd::prelude::*;

verus! {

/// One node of a recursive filesystem walk. Paths are stored as
/// `/`-rooted byte sequences; the root directory is yielded as the
/// empty path before any of its children.
#[derive(Debug)]
pub struct WalkEntry {
    /// Root-relative path, starting with `/` except for the root.
    pub path: Vec<u8>,
    /// Inode number.
    pub inode: u32,
    /// Inode kind.
    pub kind: InodeKind,
}

/// What a [`WalkEntry`] says.
#[verifier::ext_equal]
pub struct WalkView {
    pub path: Seq<u8>,
    pub inode: u32,
    pub kind: InodeKind,
}

impl View for WalkEntry {
    type V = WalkView;

    open spec fn view(&self) -> WalkView {
        WalkView { path: self.path@, inode: self.inode, kind: self.kind }
    }
}

impl Clone for WalkEntry {
    fn clone(&self) -> (r: Self)
        ensures
            r@ == self@,
    {
        let path: Vec<u8> = self.path.clone();
        assert(path@ == self.path@);
        WalkEntry { path, inode: self.inode, kind: self.kind }
    }
}

/// The entries behind a vector.
pub open spec fn walk_views(v: Seq<WalkEntry>) -> Seq<WalkView> {
    v.map_values(|e: WalkEntry| e@)
}

/// The path of an entry called `name` in the directory at `prefix`.
pub open spec fn child_path(prefix: Seq<u8>, name: Seq<u8>) -> Seq<u8> {
    prefix.push(0x2f) + name
}

impl TreeView {
    /// Whether a walk from a directory ends within `depth` levels, and
    /// whether it ends without a failure.
    pub open spec fn finish(self, inode: u32, depth: nat) -> Option<bool>
        decreases depth, 0nat,
    {
        if depth == 0 {
            None
        } else {
            match self.read_dir(inode) {
                Err(_) => Some(false),
                Ok(list) => self.finish_list(list, 0, (depth - 1) as nat),
            }
        }
    }

    /// The same of a walk through the entries from index `i` on.
    pub open spec fn finish_list(self, list: Seq<ListingView>, i: nat, depth: nat) -> Option<bool>
        decreases depth, list.len() - i + 1,
    {
        if i >= list.len() {
            Some(true)
        } else if list[i as int].kind == InodeKind::Directory {
            match self.finish(list[i as int].inode, depth) {
                None => None,
                Some(false) => Some(false),
                Some(true) => self.finish_list(list, i + 1, depth),
            }
        } else {
            self.finish_list(list, i + 1, depth)
        }
    }

    /// What a walk of at most `depth` levels below a directory adds to
    /// `acc`. Meaningful where the walk ends within that depth.
    pub open spec fn walk_dir(
        self,
        inode: u32,
        prefix: Seq<u8>,
        depth: nat,
        acc: Seq<WalkView>,
    ) -> Result<Seq<WalkView>, ErrorView>
        decreases depth, 0nat,
    {
        if depth == 0 {
            Ok(acc)
        } else {
            match self.read_dir(inode) {
                Err(e) => Err(e),
                Ok(list) => self.walk_list(list, 0, prefix, (depth - 1) as nat, acc),
            }
        }
    }

    /// The same of the entries from index `i` on. Each entry comes before
    /// what is below it.
    pub open spec fn walk_list(
        self,
        list: Seq<ListingView>,
        i: nat,
        prefix: Seq<u8>,
        depth: nat,
        acc: Seq<WalkView>,
    ) -> Result<Seq<WalkView>, ErrorView>
        decreases depth, list.len() - i + 1,
    {
        if i >= list.len() {
            Ok(acc)
        } else {
            let entry = list[i as int];
            let path = child_path(prefix, entry.name);
            let with = acc.push(WalkView { path, inode: entry.inode, kind: entry.kind });
            if entry.kind == InodeKind::Directory {
                match self.walk_dir(entry.inode, path, depth, with) {
                    Err(e) => Err(e),
                    Ok(below) => self.walk_list(list, i + 1, prefix, depth, below),
                }
            } else {
                self.walk_list(list, i + 1, prefix, depth, with)
            }
        }
    }

    /// Whether a walk from the root ends: no directory is below itself, as
    /// far as the walk gets.
    pub open spec fn finite(self) -> bool {
        exists|depth: nat| #[trigger] self.finish(0, depth) is Some
    }

    /// The walk from the root, which comes first with an empty path.
    pub open spec fn walk(self, depth: nat) -> Result<Seq<WalkView>, ErrorView> {
        match self.kind(0) {
            Err(e) => Err(e),
            Ok(kind) => self.walk_dir(
                0,
                Seq::empty(),
                depth,
                seq![WalkView { path: Seq::empty(), inode: 0, kind }],
            ),
        }
    }
}

/// A walk that ends within a depth ends in the same way within a greater
/// one.
pub proof fn lemma_finish_deeper(v: TreeView, inode: u32, depth: nat, more: nat)
    requires
        v.finish(inode, depth) is Some,
        depth <= more,
    ensures
        v.finish(inode, more) == v.finish(inode, depth),
    decreases depth, 0nat,
{
    if let Ok(list) = v.read_dir(inode) {
        lemma_finish_list_deeper(v, list, 0, (depth - 1) as nat, (more - 1) as nat);
    }
}

proof fn lemma_finish_list_deeper(
    v: TreeView,
    list: Seq<ListingView>,
    i: nat,
    depth: nat,
    more: nat,
)
    requires
        v.finish_list(list, i, depth) is Some,
        depth <= more,
    ensures
        v.finish_list(list, i, more) == v.finish_list(list, i, depth),
    decreases depth, list.len() - i + 1,
{
    if i < list.len() {
        if list[i as int].kind == InodeKind::Directory {
            lemma_finish_deeper(v, list[i as int].inode, depth, more);
            if v.finish(list[i as int].inode, depth) == Some(true) {
                lemma_finish_list_deeper(v, list, i + 1, depth, more);
            }
        } else {
            lemma_finish_list_deeper(v, list, i + 1, depth, more);
        }
    }
}

/// A walk that ends succeeds exactly when it ends without a failure, and
/// a greater depth does not change it.
pub proof fn lemma_walk_ends(
    v: TreeView,
    inode: u32,
    prefix: Seq<u8>,
    depth: nat,
    more: nat,
    acc: Seq<WalkView>,
)
    requires
        v.finish(inode, depth) is Some,
        depth <= more,
    ensures
        v.walk_dir(inode, prefix, depth, acc) is Ok <==> v.finish(inode, depth) == Some(true),
        v.walk_dir(inode, prefix, more, acc) == v.walk_dir(inode, prefix, depth, acc),
    decreases depth, 0nat,
{
    if let Ok(list) = v.read_dir(inode) {
        lemma_walk_list_ends(v, list, 0, prefix, (depth - 1) as nat, (more - 1) as nat, acc);
    }
}

proof fn lemma_walk_list_ends(
    v: TreeView,
    list: Seq<ListingView>,
    i: nat,
    prefix: Seq<u8>,
    depth: nat,
    more: nat,
    acc: Seq<WalkView>,
)
    requires
        v.finish_list(list, i, depth) is Some,
        depth <= more,
    ensures
        v.walk_list(list, i, prefix, depth, acc) is Ok <==> v.finish_list(list, i, depth) == Some(
            true,
        ),
        v.walk_list(list, i, prefix, more, acc) == v.walk_list(list, i, prefix, depth, acc),
    decreases depth, list.len() - i + 1,
{
    if i < list.len() {
        let entry = list[i as int];
        let path = child_path(prefix, entry.name);
        let with = acc.push(WalkView { path, inode: entry.inode, kind: entry.kind });
        if entry.kind == InodeKind::Directory {
            lemma_walk_ends(v, entry.inode, path, depth, more, with);
            if let Ok(below) = v.walk_dir(entry.inode, path, depth, with) {
                lemma_walk_list_ends(v, list, i + 1, prefix, depth, more, below);
            }
        } else {
            lemma_walk_list_ends(v, list, i + 1, prefix, depth, more, with);
        }
    }
}

/// The walk of a finite tree does not depend on the depth it is given, as
/// long as it ends within it.
pub proof fn lemma_walk_depth(v: TreeView, a: nat, b: nat)
    requires
        v.finish(0, a) is Some,
        v.finish(0, b) is Some,
    ensures
        v.walk(a) == v.walk(b),
{
    if let Ok(kind) = v.kind(0) {
        let acc = seq![WalkView { path: Seq::empty(), inode: 0, kind }];
        if a <= b {
            lemma_walk_ends(v, 0, Seq::empty(), a, b, acc);
        } else {
            lemma_walk_ends(v, 0, Seq::empty(), b, a, acc);
        }
    }
}

proof fn lemma_walk_extends(
    v: TreeView,
    inode: u32,
    prefix: Seq<u8>,
    depth: nat,
    acc: Seq<WalkView>,
)
    requires
        v.walk_dir(inode, prefix, depth, acc) is Ok,
    ensures
        acc.is_prefix_of(v.walk_dir(inode, prefix, depth, acc)->Ok_0),
    decreases depth, 0nat,
{
    if depth > 0 {
        let list = v.read_dir(inode)->Ok_0;
        lemma_walk_list_extends(v, list, 0, prefix, (depth - 1) as nat, acc);
    }
}

proof fn lemma_walk_list_extends(
    v: TreeView,
    list: Seq<ListingView>,
    i: nat,
    prefix: Seq<u8>,
    depth: nat,
    acc: Seq<WalkView>,
)
    requires
        v.walk_list(list, i, prefix, depth, acc) is Ok,
    ensures
        acc.is_prefix_of(v.walk_list(list, i, prefix, depth, acc)->Ok_0),
    decreases depth, list.len() - i + 1,
{
    if i < list.len() {
        let entry = list[i as int];
        let path = child_path(prefix, entry.name);
        let with = acc.push(WalkView { path, inode: entry.inode, kind: entry.kind });
        assert(acc.is_prefix_of(with));
        if entry.kind == InodeKind::Directory {
            lemma_walk_extends(v, entry.inode, path, depth, with);
            let below = v.walk_dir(entry.inode, path, depth, with)->Ok_0;
            lemma_walk_list_extends(v, list, i + 1, prefix, depth, below);
        } else {
            lemma_walk_list_extends(v, list, i + 1, prefix, depth, with);
        }
    }
}

/// A walk yields the root first, under the empty path.
pub proof fn lemma_walk_starts_at_the_root(v: TreeView, depth: nat)
    requires
        v.walk(depth) is Ok,
    ensures
        v.walk(depth)->Ok_0.len() > 0,
        v.walk(depth)->Ok_0[0].path == Seq::<u8>::empty(),
        v.walk(depth)->Ok_0[0].inode == 0,
{
    let kind = v.kind(0)->Ok_0;
    let acc = seq![WalkView { path: Seq::<u8>::empty(), inode: 0, kind }];
    lemma_walk_extends(v, 0, Seq::empty(), depth, acc);
    assert(v.walk(depth)->Ok_0[0] == acc[0]);
}

/// The entries of a listing are inodes of the tree.
proof fn lemma_listed_inodes(v: TreeView, inode: u32, i: int)
    requires
        v.read_dir(inode) is Ok,
        0 <= i < v.read_dir(inode)->Ok_0.len(),
    ensures
        v.read_dir(inode)->Ok_0[i].inode < v.tables.inodes.len(),
{
    let (begin, end) = v.dir_range(inode)->Ok_0;
    lemma_collect_ok((end - begin) as nat, v.listing_at(begin));
    let get = v.listing_at(begin);
    assert(get(i as nat) is Ok);
}

proof fn lemma_finish_list_same(v: TreeView, list: Seq<ListingView>, i: nat, a: nat, b: nat)
    requires
        forall|j: int|
            0 <= j < list.len() ==> v.finish((#[trigger] list[j]).inode, a) == v.finish(
                list[j].inode,
                b,
            ),
    ensures
        v.finish_list(list, i, a) == v.finish_list(list, i, b),
    decreases list.len() - i,
{
    if i < list.len() {
        assert(v.finish(list[i as int].inode, a) == v.finish(list[i as int].inode, b));
        lemma_finish_list_same(v, list, i + 1, a, b);
    }
}

/// Once one more level decides no further inode, no number of levels does.
proof fn lemma_finish_settles(v: TreeView, depth: nat, more: nat)
    requires
        forall|x: u32|
            x < v.tables.inodes.len() ==> #[trigger] v.finish(x, depth) == v.finish(x, depth + 1),
        depth <= more,
    ensures
        forall|x: u32|
            x < v.tables.inodes.len() ==> #[trigger] v.finish(x, more) == v.finish(x, depth),
    decreases more,
{
    if more > depth {
        let less = (more - 1) as nat;
        lemma_finish_settles(v, depth, less);
        assert forall|x: u32| x < v.tables.inodes.len() implies #[trigger] v.finish(x, more)
            == v.finish(x, depth) by {
            assert(v.finish(x, depth) == v.finish(x, depth + 1));
            if let Ok(list) = v.read_dir(x) {
                assert forall|j: int| 0 <= j < list.len() implies v.finish(
                    (#[trigger] list[j]).inode,
                    less,
                ) == v.finish(list[j].inode, depth) by {
                    lemma_listed_inodes(v, x, j);
                    assert(v.finish(list[j].inode, less) == v.finish(list[j].inode, depth));
                }
                lemma_finish_list_same(v, list, 0, less, depth);
            }
        }
    }
}

/// The number of inodes without a verdict.
spec fn undecided(status: Seq<Option<bool>>) -> nat
    decreases status.len(),
{
    if status.len() == 0 {
        0
    } else {
        undecided(status.drop_last()) + (if status.last() is None {
            1nat
        } else {
            0nat
        })
    }
}

proof fn lemma_undecided_push(status: Seq<Option<bool>>, one: Option<bool>)
    ensures
        undecided(status.push(one)) == undecided(status) + (if one is None {
            1nat
        } else {
            0nat
        }),
{
    assert(status.push(one).drop_last() =~= status);
}

impl Tree {
    fn finish_one(&self, inode: u32, status: &Vec<Option<bool>>, Ghost(depth): Ghost<nat>) -> (r:
        Option<bool>)
        requires
            status@.len() == self@.tables.inodes.len() <= u32::MAX,
            forall|x: u32|
                x < status@.len() ==> #[trigger] status@[x as int] == self@.finish(x, depth),
        ensures
            r == self@.finish(inode, depth + 1),
    {
        let list: Vec<Listing> = match self.read_dir(inode) {
            Ok(list) => list,
            Err(_) => {
                return Some(false);
            },
        };
        let ghost views = listings(list@);
        let mut i: usize = 0;
        while i < list.len()
            invariant
                i <= list@.len(),
                views == listings(list@),
                self@.read_dir(inode) == Ok::<Seq<ListingView>, ErrorView>(views),
                status@.len() == self@.tables.inodes.len() <= u32::MAX,
                forall|x: u32|
                    x < status@.len() ==> #[trigger] status@[x as int] == self@.finish(x, depth),
                self@.finish(inode, depth + 1) == self@.finish_list(views, i as nat, depth),
            decreases list@.len() - i,
        {
            assert(views[i as int] == list@[i as int]@);
            if list[i].kind == InodeKind::Directory {
                let child: u32 = list[i].inode;
                proof {
                    lemma_listed_inodes(self@, inode, i as int);
                    assert(status@[child as int] == self@.finish(child, depth));
                }
                match status[child as usize] {
                    None => {
                        return None;
                    },
                    Some(ok) => {
                        if !ok {
                            return Some(false);
                        }
                    },
                }
            }
            i = i + 1;
        }
        Some(true)
    }

    /// Whether [`Tree::walk`] ends: false where a directory is below
    /// itself.
    pub fn has_finite_walk(&self) -> (r: bool)
        ensures
            r == self@.finite(),
    {
        let count: usize = self.tables().inodes.len();
        let ghost v = self@;
        let mut status: Vec<Option<bool>> = Vec::new();
        let mut i: usize = 0;
        while i < count
            invariant
                i <= count,
                status@.len() == i,
                forall|j: int| 0 <= j < i ==> #[trigger] status@[j] is None,
            decreases count - i,
        {
            status.push(None);
            i = i + 1;
        }
        let ghost mut depth: nat = 0;
        if count == 0 {
            assert(v.finish(0, 1) is Some);
            return true;
        }
        loop
            invariant
                v == self@,
                0 < count == status@.len() == v.tables.inodes.len() <= u32::MAX,
                forall|x: u32|
                    x < count ==> #[trigger] status@[x as int] == v.finish(x, depth),
            decreases undecided(status@),
        {
            let ghost before = status@;
            let mut next: Vec<Option<bool>> = Vec::new();
            let mut changed: bool = false;
            let mut k: usize = 0;
            while k < count
                invariant
                    v == self@,
                    before == status@,
                    k <= count == status@.len() == v.tables.inodes.len() <= u32::MAX,
                    next@.len() == k,
                    forall|x: u32|
                        x < count ==> #[trigger] status@[x as int] == v.finish(x, depth),
                    forall|x: u32| x < k ==> #[trigger] next@[x as int] == v.finish(x, depth + 1),
                    !changed ==> next@ == before.take(k as int),
                    undecided(next@) <= undecided(before.take(k as int)),
                    changed ==> undecided(next@) < undecided(before.take(k as int)),
                decreases count - k,
            {
                let x: u32 = k as u32;
                assert(status@[x as int] == v.finish(x, depth));
                let one: Option<bool> = match status[k] {
                    Some(ok) => {
                        proof {
                            lemma_finish_deeper(v, x, depth, depth + 1);
                        }
                        Some(ok)
                    },
                    None => {
                        let found: Option<bool> = self.finish_one(x, &status, Ghost(depth));
                        if found.is_some() {
                            changed = true;
                        }
                        found
                    },
                };
                proof {
                    assert(before.take(k + 1) =~= before.take(k as int).push(before[k as int]));
                    lemma_undecided_push(before.take(k as int), before[k as int]);
                    lemma_undecided_push(next@, one);
                }
                next.push(one);
                k = k + 1;
            }
            assert(before.take(k as int) =~= before);
            if !changed {
                let root: bool = status[0].is_some();
                proof {
                    assert forall|x: u32| x < v.tables.inodes.len() implies #[trigger] v.finish(
                        x,
                        depth,
                    ) == v.finish(x, depth + 1) by {
                        assert(status@[x as int] == v.finish(x, depth));
                        assert(next@[x as int] == v.finish(x, depth + 1));
                    }
                    assert(status@[0u32 as int] == v.finish(0, depth));
                    if v.finite() {
                        let d = choose|d: nat| #[trigger] v.finish(0, d) is Some;
                        if d <= depth {
                            lemma_finish_deeper(v, 0, d, depth);
                        } else {
                            lemma_finish_settles(v, depth, d);
                            assert(v.finish(0, d) == v.finish(0, depth));
                        }
                    }
                }
                return root;
            }
            status = next;
            proof {
                depth = depth + 1;
            }
        }
    }

    /// Depth-first traversal of the filesystem, yielding every node
    /// (including the implicit root) in directory order. Directories
    /// appear before their contents; entries inside a directory are
    /// returned in the on-disk order, which `mkdwarfs` keeps sorted
    /// asciibetically.
    ///
    /// The walk must end, see [`Tree::has_finite_walk`].
    pub fn walk(&self) -> (r: Result<Vec<WalkEntry>, Error>)
        requires
            self@.finite(),
        ensures
            forall|depth: nat| #[trigger]
                self@.finish(0, depth) is Some ==> match r {
                    Ok(v) => self@.walk(depth) == Ok::<Seq<WalkView>, ErrorView>(walk_views(v@)),
                    Err(e) => self@.walk(depth) == Err::<Seq<WalkView>, ErrorView>(e@),
                },
    {
        let ghost depth = choose|depth: nat| #[trigger] self@.finish(0, depth) is Some;
        proof {
            assert forall|d: nat| #[trigger]
                self@.finish(0, d) is Some implies self@.walk(d) == self@.walk(depth) by {
                lemma_walk_depth(self@, d, depth);
            }
        }
        let kind = self.kind(0)?;
        let mut out: Vec<WalkEntry> = Vec::new();
        let root = WalkEntry { path: Vec::new(), inode: 0, kind };
        assert(root@.path =~= Seq::<u8>::empty());
        out.push(root);
        assert(walk_views(out@) =~= seq![WalkView { path: Seq::empty(), inode: 0, kind }]);
        let top: Vec<u8> = Vec::new();
        assert(top@ =~= Seq::<u8>::empty());
        self.walk_inner(0, top.as_slice(), &mut out, Ghost(depth))?;
        Ok(out)
    }

    fn walk_inner(
        &self,
        inode: u32,
        prefix: &[u8],
        out: &mut Vec<WalkEntry>,
        Ghost(depth): Ghost<nat>,
    ) -> (r: Result<(), Error>)
        requires
            self@.finish(inode, depth) is Some,
        ensures
            match r {
                Ok(_) => self@.walk_dir(inode, prefix@, depth, walk_views(old(out)@)) == Ok::<
                    Seq<WalkView>,
                    ErrorView,
                >(walk_views(final(out)@)),
                Err(e) => self@.walk_dir(inode, prefix@, depth, walk_views(old(out)@)) == Err::<
                    Seq<WalkView>,
                    ErrorView,
                >(e@),
            },
        decreases depth,
    {
        let ghost want = self@.walk_dir(inode, prefix@, depth, walk_views(out@));
        let ghost less = (depth - 1) as nat;
        let entries: Vec<Listing> = self.read_dir(inode)?;
        let ghost views = listings(entries@);
        let mut i: usize = 0;
        while i < entries.len()
            invariant
                i <= entries@.len(),
                depth > 0,
                less == depth - 1,
                views == listings(entries@),
                want == self@.walk_dir(inode, prefix@, depth, walk_views(old(out)@)),
                self@.finish_list(views, i as nat, less) is Some,
                want == self@.walk_list(views, i as nat, prefix@, less, walk_views(out@)),
            decreases entries@.len() - i,
        {
            let entry: &Listing = &entries[i];
            assert(views[i as int] == entry@);
            let mut path: Vec<u8> = Vec::new();
            path.extend_from_slice(prefix);
            path.push(0x2f);
            path.extend_from_slice(entry.name.as_slice());
            assert(path@ =~= child_path(prefix@, entry@.name));
            let kept: Vec<u8> = path.clone();
            assert(kept@ == path@);
            let node = WalkEntry { path: kept, inode: entry.inode, kind: entry.kind };
            let ghost before = out@;
            out.push(node);
            assert(walk_views(out@) =~= walk_views(before).push(node@));
            if entry.kind == InodeKind::Directory {
                proof {
                    lemma_walk_ends(
                        self@,
                        entry.inode,
                        path@,
                        less,
                        less,
                        walk_views(out@),
                    );
                }
                self.walk_inner(entry.inode, path.as_slice(), out, Ghost(less))?;
            }
            i = i + 1;
        }
        Ok(())
    }
}

impl<S: ImageSource> Filesystem<S> {
    /// Depth-first traversal of the filesystem, as [`Tree::walk`].
    pub fn walk(&self) -> (r: Result<Vec<WalkEntry>, Error>)
        requires
            self@.tree.finite(),
        ensures
            forall|depth: nat| #[trigger]
                self@.tree.finish(0, depth) is Some ==> match r {
                    Ok(v) => self@.tree.walk(depth) == Ok::<Seq<WalkView>, ErrorView>(
                        walk_views(v@),
                    ),
                    Err(e) => self@.tree.walk(depth) == Err::<Seq<WalkView>, ErrorView>(e@),
                },
    {
        self.tree().walk()
    }
}

} // verus!
