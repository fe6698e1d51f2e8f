//! Laws that tie paths, listings, walks and parents together.

use crate::collect::lemma_collect_ok;
use crate::error::ErrorView;
use crate::fs::inode::InodeKind;
use crate::fs::links::{
    delta_unpacked, filled_in, is_named, lemma_rebuilding_fills_in, lemma_rebuilding_restores,
    lemma_same_named_once, named_once, names, relinked, same_ranges, unpacked,
};
use crate::fs::preorder::{child_at, is_preorder, lemma_walk_is_preorder, node_stands, walked};
use crate::fs::tables::TablesView;
use crate::fs::tree::{
    ListingView, Node, TreeView, component_len, components, lemma_component_len,
};
use crate::fs::walk::{WalkView, child_path};
use vstd::prelude::*;

verus! {

/// Whether a name can stand between two separators.
pub open spec fn is_component(name: Seq<u8>) -> bool {
    name.len() > 0 && !name.contains(0x2f)
}

proof fn lemma_component_whole(name: Seq<u8>)
    requires
        !name.contains(0x2f),
    ensures
        component_len(name) == name.len(),
    decreases name.len(),
{
    if name.len() > 0 {
        assert(name[0] != 0x2f);
        assert forall|i: int| 0 <= i < name.skip(1).len() implies name.skip(1)[i] != 0x2f by {
            assert(name[i + 1] != 0x2f);
        }
        lemma_component_whole(name.skip(1));
    }
}

proof fn lemma_component_len_append(path: Seq<u8>, name: Seq<u8>)
    ensures
        component_len(child_path(path, name)) == component_len(path),
    decreases path.len(),
{
    let all = child_path(path, name);
    if path.len() == 0 {
        assert(all[0] == 0x2f);
    } else {
        assert(all[0] == path[0]);
        if path[0] != 0x2f {
            assert(all.skip(1) =~= child_path(path.skip(1), name));
            lemma_component_len_append(path.skip(1), name);
        }
    }
}

/// Appending a name to a path appends it to the path's components.
pub proof fn lemma_components_of_child(path: Seq<u8>, name: Seq<u8>)
    requires
        is_component(name),
    ensures
        components(child_path(path, name)) == components(path).push(name),
    decreases path.len(),
{
    let all = child_path(path, name);
    if path.len() == 0 {
        assert(all[0] == 0x2f);
        assert(all.skip(1) =~= name);
        lemma_component_whole(name);
        assert(name[0] != 0x2f);
        assert(name.take(name.len() as int) =~= name);
        assert(components(name.skip(name.len() as int)) =~= Seq::<Seq<u8>>::empty());
        assert(components(name) =~= seq![name]);
        assert(components(path).push(name) =~= seq![name]);
    } else if path[0] == 0x2f {
        assert(all[0] == 0x2f);
        assert(all.skip(1) =~= child_path(path.skip(1), name));
        lemma_components_of_child(path.skip(1), name);
    } else {
        assert(all[0] == path[0]);
        let n = component_len(path);
        lemma_component_len(path);
        lemma_component_len_append(path, name);
        assert(all.take(n as int) =~= path.take(n as int));
        assert(all.skip(n as int) =~= child_path(path.skip(n as int), name));
        lemma_components_of_child(path.skip(n as int), name);
        assert(components(all) =~= components(path).push(name));
    }
}

proof fn lemma_follow_further(
    v: TreeView,
    path: Seq<Seq<u8>>,
    i: int,
    from: u32,
    name: Seq<u8>,
    child: u32,
)
    requires
        0 <= i <= path.len(),
        v.follow(path, i, from) is Ok,
        v.follow(path, i, from)->Ok_0.kind == InodeKind::Directory,
        v.lookup_child(v.follow(path, i, from)->Ok_0.inode, name) == Ok::<Option<u32>, ErrorView>(
            Some(child),
        ),
        v.kind(child) is Ok,
    ensures
        v.follow(path.push(name), i, from) == Ok::<Node, ErrorView>(
            Node { inode: child, kind: v.kind(child)->Ok_0 },
        ),
    decreases path.len() - i,
{
    let longer = path.push(name);
    if i < path.len() {
        assert(longer[i] == path[i]);
        let next = v.lookup_child(from, path[i])->Ok_0->Some_0;
        lemma_follow_further(v, path, i + 1, next, name, child);
    } else {
        assert(longer[i] == name);
        reveal_with_fuel(TreeView::follow, 2);
    }
}

/// A path to a directory followed by the name of one of its entries leads
/// to that entry's inode.
pub proof fn lemma_lookup_child_path(v: TreeView, path: Seq<u8>, name: Seq<u8>, child: u32)
    requires
        is_component(name),
        v.lookup(path) is Ok,
        v.lookup(path)->Ok_0.kind == InodeKind::Directory,
        v.lookup_child(v.lookup(path)->Ok_0.inode, name) == Ok::<Option<u32>, ErrorView>(
            Some(child),
        ),
        v.kind(child) is Ok,
    ensures
        v.lookup(child_path(path, name)) == Ok::<Node, ErrorView>(
            Node { inode: child, kind: v.kind(child)->Ok_0 },
        ),
{
    lemma_components_of_child(path, name);
    lemma_follow_further(v, components(path), 0, 0, name, child);
}

/// A path is the same with more separators in front of it.
pub proof fn lemma_leading_separator(v: TreeView, path: Seq<u8>)
    ensures
        v.lookup(seq![0x2fu8] + path) == v.lookup(path),
{
    assert((seq![0x2fu8] + path).skip(1) =~= path);
}

proof fn lemma_find_entry(
    v: TreeView,
    begin: int,
    i: int,
    end: int,
    list: Seq<ListingView>,
    k: int,
)
    requires
        0 <= begin <= i <= begin + k < end,
        list.len() == end - begin,
        forall|j: int|
            0 <= j < list.len() ==> v.entry_name(begin + j) == Ok::<Seq<u8>, ErrorView>(
                (#[trigger] list[j]).name,
            ) && v.tables.dir_entries[begin + j].inode_num == list[j].inode,
        forall|j: int| 0 <= j < k ==> (#[trigger] list[j]).name != list[k].name,
    ensures
        v.find_entry(list[k].name, i, end) == Ok::<Option<u32>, ErrorView>(Some(list[k].inode)),
    decreases end - i,
{
    let j = i - begin;
    assert(v.entry_name(begin + j) == Ok::<Seq<u8>, ErrorView>(list[j].name));
    if j < k {
        assert(list[j].name != list[k].name);
        lemma_find_entry(v, begin, i + 1, end, list, k);
    }
}

/// Every entry that a listing shows is found by its name, where no entry
/// before it has the same one.
pub proof fn lemma_listed_is_found(v: TreeView, dir: u32, k: int)
    requires
        v.read_dir(dir) is Ok,
        0 <= k < v.read_dir(dir)->Ok_0.len(),
        forall|j: int|
            0 <= j < k ==> (#[trigger] v.read_dir(dir)->Ok_0[j]).name
                != v.read_dir(dir)->Ok_0[k].name,
    ensures
        v.lookup_child(dir, v.read_dir(dir)->Ok_0[k].name) == Ok::<Option<u32>, ErrorView>(
            Some(v.read_dir(dir)->Ok_0[k].inode),
        ),
        v.kind(v.read_dir(dir)->Ok_0[k].inode) == Ok::<InodeKind, ErrorView>(
            v.read_dir(dir)->Ok_0[k].kind,
        ),
{
    let list = v.read_dir(dir)->Ok_0;
    let (begin, end) = v.dir_range(dir)->Ok_0;
    let get = v.listing_at(begin);
    lemma_collect_ok((end - begin) as nat, get);
    assert forall|j: int| 0 <= j < list.len() implies v.entry_name(begin + j) == Ok::<
        Seq<u8>,
        ErrorView,
    >((#[trigger] list[j]).name) && v.tables.dir_entries[begin + j].inode_num
        == list[j].inode by {
        assert(get(j as nat) == Ok::<ListingView, ErrorView>(list[j]));
    }
    assert(get(k as nat) == Ok::<ListingView, ErrorView>(list[k]));
    lemma_find_entry(v, begin as int, begin as int, end as int, list, k);
}

/// Whether every listing has usable names, each once.
pub open spec fn names_are_sound(v: TreeView) -> bool {
    forall|dir: u32|
        #![trigger v.read_dir(dir)]
        v.read_dir(dir) matches Ok(list) ==> listing_is_sound(list)
}

/// Whether a listing has usable names, each once.
pub open spec fn listing_is_sound(list: Seq<ListingView>) -> bool {
    &&& forall|i: int| 0 <= i < list.len() ==> is_component((#[trigger] list[i]).name)
    &&& forall|i: int, j: int|
        0 <= i < j < list.len() ==> (#[trigger] list[i]).name != (#[trigger] list[j]).name
}

/// Whether looking up the paths of walk entries leads to their nodes.
pub open spec fn paths_lead_back(v: TreeView, entries: Seq<WalkView>) -> bool {
    forall|k: int|
        0 <= k < entries.len() ==> v.lookup((#[trigger] entries[k]).path) == Ok::<Node, ErrorView>(
            Node { inode: entries[k].inode, kind: entries[k].kind },
        )
}

proof fn lemma_walk_dir_paths(
    v: TreeView,
    inode: u32,
    prefix: Seq<u8>,
    depth: nat,
    acc: Seq<WalkView>,
)
    requires
        names_are_sound(v),
        v.walk_dir(inode, prefix, depth, acc) is Ok,
        v.lookup(prefix) == Ok::<Node, ErrorView>(Node { inode, kind: InodeKind::Directory }),
        paths_lead_back(v, acc),
    ensures
        paths_lead_back(v, v.walk_dir(inode, prefix, depth, acc)->Ok_0),
    decreases depth, 0nat,
{
    if depth > 0 {
        let list = v.read_dir(inode)->Ok_0;
        assert(listing_is_sound(list));
        lemma_walk_list_paths(v, inode, list, 0, prefix, (depth - 1) as nat, acc);
    }
}

proof fn lemma_walk_list_paths(
    v: TreeView,
    dir: u32,
    list: Seq<ListingView>,
    i: nat,
    prefix: Seq<u8>,
    depth: nat,
    acc: Seq<WalkView>,
)
    requires
        names_are_sound(v),
        v.read_dir(dir) == Ok::<Seq<ListingView>, ErrorView>(list),
        listing_is_sound(list),
        v.walk_list(list, i, prefix, depth, acc) is Ok,
        v.lookup(prefix) == Ok::<Node, ErrorView>(Node { inode: dir, kind: InodeKind::Directory }),
        paths_lead_back(v, acc),
    ensures
        paths_lead_back(v, v.walk_list(list, i, prefix, depth, acc)->Ok_0),
    decreases depth, list.len() - i + 1,
{
    if i < list.len() {
        let entry = list[i as int];
        let path = child_path(prefix, entry.name);
        let with = acc.push(WalkView { path, inode: entry.inode, kind: entry.kind });
        lemma_listed_is_found(v, dir, i as int);
        lemma_lookup_child_path(v, prefix, entry.name, entry.inode);
        assert(paths_lead_back(v, with)) by {
            assert forall|k: int| 0 <= k < with.len() implies v.lookup((#[trigger] with[k]).path)
                == Ok::<Node, ErrorView>(
                Node { inode: with[k].inode, kind: with[k].kind },
            ) by {
                if k < acc.len() {
                    assert(with[k] == acc[k]);
                }
            }
        }
        if entry.kind == InodeKind::Directory {
            lemma_walk_dir_paths(v, entry.inode, path, depth, with);
            let below = v.walk_dir(entry.inode, path, depth, with)->Ok_0;
            lemma_walk_list_paths(v, dir, list, i + 1, prefix, depth, below);
        } else {
            lemma_walk_list_paths(v, dir, list, i + 1, prefix, depth, with);
        }
    }
}

/// Looking up a path that a walk yields leads to the node it yields the
/// path with, where every listing has usable names, each once.
pub proof fn lemma_walked_paths_lead_back(v: TreeView, depth: nat)
    requires
        names_are_sound(v),
        v.walk(depth) is Ok,
        depth > 0,
    ensures
        paths_lead_back(v, v.walk(depth)->Ok_0),
{
    let kind = v.kind(0)->Ok_0;
    let acc = seq![WalkView { path: Seq::<u8>::empty(), inode: 0, kind }];
    assert(v.read_dir(0) is Ok);
    assert(components(Seq::<u8>::empty()) =~= Seq::<Seq<u8>>::empty());
    assert(v.lookup(Seq::<u8>::empty()) == Ok::<Node, ErrorView>(Node { inode: 0, kind }));
    lemma_walk_dir_paths(v, 0, Seq::empty(), depth, acc);
}

/// The path with the given components, each after one separator.
pub open spec fn joined(parts: Seq<Seq<u8>>) -> Seq<u8>
    decreases parts.len(),
{
    if parts.len() == 0 {
        Seq::empty()
    } else {
        child_path(joined(parts.drop_last()), parts.last())
    }
}

proof fn lemma_components_are_components(path: Seq<u8>)
    ensures
        forall|i: int|
            0 <= i < components(path).len() ==> is_component(#[trigger] components(path)[i]),
    decreases path.len(),
{
    if path.len() > 0 {
        if path[0] == 0x2f {
            lemma_components_are_components(path.skip(1));
            assert(components(path) == components(path.skip(1)));
        } else {
            let n = component_len(path);
            lemma_component_len(path);
            lemma_component_has_no_separator(path);
            lemma_components_are_components(path.skip(n as int));
            let first = path.take(n as int);
            assert(is_component(first));
            assert forall|i: int| 0 <= i < components(path).len() implies is_component(
                #[trigger] components(path)[i],
            ) by {
                if i > 0 {
                    assert(components(path)[i] == components(path.skip(n as int))[i - 1]);
                } else {
                    assert(components(path)[0] == first);
                }
            }
        }
    }
}

proof fn lemma_component_has_no_separator(path: Seq<u8>)
    requires
        component_len(path) <= path.len(),
    ensures
        !path.take(component_len(path) as int).contains(0x2f),
    decreases path.len(),
{
    if path.len() > 0 && path[0] != 0x2f {
        let n = component_len(path) as int;
        let rest = path.skip(1);
        lemma_component_len(rest);
        lemma_component_has_no_separator(rest);
        assert forall|i: int| 0 <= i < n implies path.take(n)[i] != 0x2f by {
            if i > 0 {
                assert(rest.take(n - 1)[i - 1] == path[i]);
            }
        }
    }
}

proof fn lemma_components_of_joined(parts: Seq<Seq<u8>>)
    requires
        forall|i: int| 0 <= i < parts.len() ==> is_component(#[trigger] parts[i]),
    ensures
        components(joined(parts)) == parts,
    decreases parts.len(),
{
    if parts.len() > 0 {
        let front = parts.drop_last();
        assert forall|i: int| 0 <= i < front.len() implies is_component(#[trigger] front[i]) by {
            assert(front[i] == parts[i]);
        }
        lemma_components_of_joined(front);
        lemma_components_of_child(joined(front), parts.last());
        assert(front.push(parts.last()) =~= parts);
    } else {
        assert(components(joined(parts)) =~= parts);
    }
}

/// Where a path leads depends on its components alone: separators in front
/// of it, behind it or doubled do not matter.
pub proof fn lemma_lookup_goes_by_components(v: TreeView, p: Seq<u8>, q: Seq<u8>)
    requires
        components(p) == components(q),
    ensures
        v.lookup(p) == v.lookup(q),
{
}

/// The empty path and a lone separator lead to the root.
pub proof fn lemma_root_paths(v: TreeView)
    requires
        v.kind(0) is Ok,
    ensures
        v.lookup(Seq::empty()) == Ok::<Node, ErrorView>(Node { inode: 0, kind: v.kind(0)->Ok_0 }),
        v.lookup(seq![0x2fu8]) == Ok::<Node, ErrorView>(Node { inode: 0, kind: v.kind(0)->Ok_0 }),
{
    assert(components(Seq::<u8>::empty()) =~= Seq::<Seq<u8>>::empty());
    assert(seq![0x2fu8].skip(1) =~= Seq::<u8>::empty());
}

/// A path leads where its components lead with one separator before each.
pub proof fn lemma_lookup_of_joined(v: TreeView, p: Seq<u8>)
    ensures
        components(joined(components(p))) == components(p),
        v.lookup(joined(components(p))) == v.lookup(p),
{
    lemma_components_are_components(p);
    lemma_components_of_joined(components(p));
}

proof fn lemma_found_is_listed(v: TreeView, dir: u32, name: Seq<u8>, i: int) -> (k: int)
    requires
        v.read_dir(dir) is Ok,
        v.dir_range(dir)->Ok_0.0 <= i <= v.dir_range(dir)->Ok_0.1,
        v.find_entry(name, i, v.dir_range(dir)->Ok_0.1 as int) is Ok,
        v.find_entry(name, i, v.dir_range(dir)->Ok_0.1 as int)->Ok_0 is Some,
    ensures
        0 <= k < v.read_dir(dir)->Ok_0.len(),
        v.read_dir(dir)->Ok_0[k].name == name,
        v.find_entry(name, i, v.dir_range(dir)->Ok_0.1 as int)->Ok_0 == Some(
            v.read_dir(dir)->Ok_0[k].inode,
        ),
        v.kind(v.read_dir(dir)->Ok_0[k].inode) == Ok::<InodeKind, ErrorView>(
            v.read_dir(dir)->Ok_0[k].kind,
        ),
    decreases v.dir_range(dir)->Ok_0.1 - i,
{
    let (begin, end) = v.dir_range(dir)->Ok_0;
    let list = v.read_dir(dir)->Ok_0;
    let get = v.listing_at(begin);
    lemma_collect_ok((end - begin) as nat, get);
    assert(get((i - begin) as nat) == Ok::<ListingView, ErrorView>(list[i - begin]));
    if list[i - begin].name == name {
        i - begin
    } else {
        lemma_found_is_listed(v, dir, name, i + 1)
    }
}

proof fn lemma_followed_is_walked(
    v: TreeView,
    w: Seq<WalkView>,
    ends: Seq<int>,
    parts: Seq<Seq<u8>>,
    i: int,
    k: int,
) -> (r: int)
    requires
        is_preorder(v, w, ends),
        0 <= i <= parts.len(),
        0 <= k < w.len(),
        w[k].path == joined(parts.take(i)),
        v.kind(w[k].inode) == Ok::<InodeKind, ErrorView>(w[k].kind),
        v.follow(parts, i, w[k].inode) is Ok,
    ensures
        0 <= r < w.len(),
        w[r].path == joined(parts),
        v.follow(parts, i, w[k].inode) == Ok::<Node, ErrorView>(
            Node { inode: w[r].inode, kind: w[r].kind },
        ),
    decreases parts.len() - i,
{
    if i >= parts.len() {
        assert(parts.take(i) =~= parts);
        k
    } else {
        assert(node_stands(v, w, ends, k));
        let dir = w[k].inode;
        let list = v.read_dir(dir)->Ok_0;
        let j = lemma_found_is_listed(v, dir, parts[i], v.dir_range(dir)->Ok_0.0 as int);
        let p = child_at(ends, k, j as nat);
        assert(w[p] == walked(w[k].path, list[j]));
        assert(parts.take(i + 1).drop_last() =~= parts.take(i));
        assert(parts.take(i + 1).last() == parts[i]);
        lemma_followed_is_walked(v, w, ends, parts, i + 1, p)
    }
}

/// Every path that leads somewhere is walked: the walk yields it, with one
/// separator before each component, together with the node it leads to.
/// So a path that the walk does not yield leads nowhere.
pub proof fn lemma_found_paths_are_walked(v: TreeView, depth: nat, path: Seq<u8>)
    requires
        v.finish(0, depth) is Some,
        v.walk(depth) is Ok,
    ensures
        v.lookup(path) matches Ok(node) ==> exists|k: int|
            0 <= k < v.walk(depth)->Ok_0.len() && #[trigger] v.walk(depth)->Ok_0[k] == (WalkView {
                path: joined(components(path)),
                inode: node.inode,
                kind: node.kind,
            }),
        (forall|k: int|
            0 <= k < v.walk(depth)->Ok_0.len() ==> (#[trigger] v.walk(depth)->Ok_0[k]).path
                != joined(components(path))) ==> v.lookup(path) is Err,
{
    let w = v.walk(depth)->Ok_0;
    let ends = lemma_walk_is_preorder(v, depth);
    let parts = components(path);
    if v.lookup(path) is Ok {
        assert(parts.take(0) =~= Seq::<Seq<u8>>::empty());
        assert(w[0].path =~= joined(parts.take(0)));
        let r = lemma_followed_is_walked(v, w, ends, parts, 0, 0);
        let node = v.lookup(path)->Ok_0;
        assert(w[r] == (WalkView { path: joined(parts), inode: node.inode, kind: node.kind }));
    }
}

/// Whether every directory inode has a row of the directory table, with
/// another one after it that closes its range.
pub open spec fn directories_have_rows(v: TreeView) -> bool {
    forall|i: u32|
        #[trigger] v.kind(i) == Ok::<InodeKind, ErrorView>(InodeKind::Directory) ==> i + 1
            < v.tables.directories.len()
}

/// Whether a tree's directories are named once each, with the columns that
/// lead from a directory to its parent filled in.
pub open spec fn is_linked(v: TreeView) -> bool {
    &&& directories_have_rows(v)
    &&& named_once(v.tables.directories, v.tables.dir_entries)
    &&& filled_in(v.tables.directories, v.tables.dir_entries)
}

/// Unpacking a packed directory table links it, where entry zero is the
/// root's own and every other directory is named by exactly one entry.
pub proof fn lemma_unpacking_links(t: TablesView)
    requires
        t.options.packed_directories,
        named_once(delta_unpacked(t.directories), t.dir_entries),
    ensures
        named_once(unpacked(t).directories, t.dir_entries),
        filled_in(unpacked(t).directories, t.dir_entries),
{
    let dirs = delta_unpacked(t.directories);
    lemma_rebuilding_fills_in(dirs, t.dir_entries);
    lemma_same_named_once(dirs, unpacked(t).directories, t.dir_entries);
}

/// The parent of a directory is the directory that lists it.
pub proof fn lemma_parent_lists_child(v: TreeView, d: u32, k: int)
    requires
        is_linked(v),
        v.read_dir(d) is Ok,
        0 <= k < v.read_dir(d)->Ok_0.len(),
        v.read_dir(d)->Ok_0[k].kind == InodeKind::Directory,
        v.read_dir(d)->Ok_0[k].inode != 0,
    ensures
        v.parent(v.read_dir(d)->Ok_0[k].inode) == Ok::<u32, ErrorView>(d),
{
    let dirs = v.tables.directories;
    let entries = v.tables.dir_entries;
    let list = v.read_dir(d)->Ok_0;
    let (begin, end) = v.dir_range(d)->Ok_0;
    let get = v.listing_at(begin);
    lemma_collect_ok((end - begin) as nat, get);
    assert(get(k as nat) == Ok::<ListingView, ErrorView>(list[k]));
    let c = list[k].inode;
    assert(v.kind(c) == Ok::<InodeKind, ErrorView>(InodeKind::Directory));
    assert(v.kind(d) == Ok::<InodeKind, ErrorView>(InodeKind::Directory));
    assert(names(dirs, entries, d as int, begin + k, c as int));
    if d > 0 {
        assert(is_named(dirs, entries, d as int));
        let (x, y) = choose|x: int, y: int|
            0 <= x < dirs.len() - 1 && #[trigger] names(dirs, entries, x, y, d as int);
        assert(names(dirs, entries, x, y, d as int));
    }
}

/// The root is its own parent.
pub proof fn lemma_root_is_its_own_parent(v: TreeView)
    requires
        is_linked(v),
        v.kind(0) == Ok::<InodeKind, ErrorView>(InodeKind::Directory),
    ensures
        v.parent(0) == Ok::<u32, ErrorView>(0),
{
}

/// Only a directory has a parent to ask for.
pub proof fn lemma_only_directories_have_parents(v: TreeView, inode: u32)
    requires
        v.kind(inode) != Ok::<InodeKind, ErrorView>(InodeKind::Directory),
    ensures
        v.parent(inode) is Err,
{
}

/// Two linked trees over the same inodes and directory entries have the
/// same parents: it does not matter whether the columns were recorded or
/// rebuilt.
pub proof fn lemma_same_parents(a: TreeView, b: TreeView, inode: u32)
    requires
        is_linked(a),
        is_linked(b),
        a.tables.inodes == b.tables.inodes,
        a.tables.modes == b.tables.modes,
        a.tables.dir_entries == b.tables.dir_entries,
        same_ranges(a.tables.directories, b.tables.directories),
    ensures
        a.parent(inode) == b.parent(inode),
{
    let x = a.tables.directories;
    let y = b.tables.directories;
    let entries = a.tables.dir_entries;
    assert(a.kind(inode) == b.kind(inode));
    if a.kind(inode) == Ok::<InodeKind, ErrorView>(InodeKind::Directory) {
        lemma_rebuilding_restores(x, x, entries);
        lemma_rebuilding_restores(y, x, entries);
        assert(relinked(x, entries)[inode as int] == x[inode as int]);
        assert(relinked(x, entries)[inode as int] == y[inode as int]);
    }
}

} // verus!
