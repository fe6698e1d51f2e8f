//! What an extraction does with each entry of a walk.
//!
//! Directories are made first, then regular files are written, then
//! symlinks; what stands above a selected entry is made along with it.
//! Files whose content was already written are hard-linked instead of
//! written again, so on-disk dedup mirrors the image's dedup.
//!
//! Errors abort by default; `continue_on_error` keeps going past
//! per-entry failures and ends in a summary error.

use std::collections::BTreeMap;

use crate::error::{Error, ErrorView, viewed};
use crate::format::source::ImageSource;
use crate::fs::cache::{BlockCache, within_budget};
use crate::fs::content::{FsView, agrees, lemma_file_contents};
use crate::fs::glob::{glob, glob_bytes};
use crate::fs::inode::InodeKind;
use crate::fs::read::{Filesystem, read_outcome};
use crate::fs::tree::{Tree, TreeView};
use crate::fs::walk::{WalkEntry, WalkView, walk_views};
use crate::metadata::root::texts;
use crate::text::{Text, dec};
use crate::utf8::from_utf8;
use vstd::prelude::*;
use vstd::string::*;
use vstd::utf8::*;

verus! {

/// Options controlling the extractor.
#[derive(Debug)]
pub struct ExtractOptions {
    /// Continue past per-entry errors instead of aborting on the first
    /// failure. The extraction still ends in an error if at least one
    /// entry failed, so the caller can decide whether to surface it.
    pub continue_on_error: bool,
    /// When true (default behaviour), hard-link shared and hardlinked
    /// inodes on the destination filesystem instead of writing
    /// independent copies.
    pub hardlink_shared: bool,
    /// Shell-style glob patterns. When non-empty, only entries whose
    /// root-relative path matches at least one pattern are extracted.
    /// Patterns use the same syntax as the writer's `--filter`:
    /// `*` and `?` don't cross `/`, character classes like `[a-z]`
    /// are supported.
    pub include_patterns: Vec<String>,
}

impl ExtractOptions {
    /// Construct the default option set: errors abort, shared inodes
    /// hard-link, no pattern filter.
    pub fn new() -> (r: Self)
        ensures
            !r.continue_on_error,
            r.hardlink_shared,
            r.include_patterns@.len() == 0,
    {
        ExtractOptions {
            continue_on_error: false,
            hardlink_shared: true,
            include_patterns: Vec::new(),
        }
    }

    /// Whether an entry is to be extracted: the root always is, so that
    /// the destination exists, and any other entry where its path matches
    /// a pattern or there are no patterns. `None` where a pattern that had
    /// to be tried is none for the entry's path.
    pub fn matches(&self, entry: &WalkEntry) -> (r: Option<bool>)
        ensures
            r == selects(texts(self.include_patterns@), entry@),
    {
        if self.include_patterns.len() == 0 || entry.path.len() == 0 {
            return Some(true);
        }
        let trimmed: &[u8] = relative_path(entry.path.as_slice());
        let text: &[u8] = match from_utf8(trimmed) {
            Some(_) => trimmed,
            None => &[],
        };
        assert(text@ =~= path_text(entry@.path));
        let ghost patterns = texts(self.include_patterns@);
        let mut i: usize = 0;
        while i < self.include_patterns.len()
            invariant
                i <= self.include_patterns@.len(),
                patterns == texts(self.include_patterns@),
                text@ == path_text(entry@.path),
                selects(patterns, entry@) == any_match(patterns, text@, i as nat),
            decreases self.include_patterns@.len() - i,
        {
            let pattern: &str = self.include_patterns[i].as_str();
            assert(pattern@ == patterns[i as int]);
            match glob_bytes(pattern.as_bytes(), text) {
                Some(false) => {},
                verdict => {
                    return verdict;
                },
            }
            i = i + 1;
        }
        Some(false)
    }
}

impl Default for ExtractOptions {
    fn default() -> (r: Self)
        ensures
            !r.continue_on_error,
            r.hardlink_shared,
            r.include_patterns@.len() == 0,
    {
        ExtractOptions::new()
    }
}

/// A path without its leading separator.
pub open spec fn relative(path: Seq<u8>) -> Seq<u8> {
    if path.len() > 0 && path[0] == 0x2f {
        path.skip(1)
    } else {
        path
    }
}

/// Strip the leading separator of a path.
pub fn relative_path(path: &[u8]) -> (r: &[u8])
    ensures
        r@ == relative(path@),
{
    if path.len() > 0 && path[0] == 0x2f {
        let rest: &[u8] = vstd::slice::slice_subrange(path, 1, path.len());
        assert(rest@ =~= path@.skip(1));
        rest
    } else {
        path
    }
}

/// The text that patterns are matched against: the root-relative path, or
/// nothing where that is no UTF-8.
pub open spec fn path_text(path: Seq<u8>) -> Seq<u8> {
    if valid_utf8(relative(path)) {
        relative(path)
    } else {
        Seq::empty()
    }
}

/// Whether one of the patterns from index `i` on matches.
pub open spec fn any_match(patterns: Seq<Seq<char>>, text: Seq<u8>, i: nat) -> Option<bool>
    decreases patterns.len() - i,
{
    if i >= patterns.len() {
        Some(false)
    } else {
        match glob(encode_utf8(patterns[i as int]), text) {
            Some(false) => any_match(patterns, text, i + 1),
            verdict => verdict,
        }
    }
}

/// Whether patterns select an entry. Without patterns everything is
/// selected; the root always is.
pub open spec fn selects(patterns: Seq<Seq<char>>, entry: WalkView) -> Option<bool> {
    if patterns.len() == 0 || entry.path.len() == 0 {
        Some(true)
    } else {
        any_match(patterns, path_text(entry.path), 0)
    }
}

/// The selected ones of the first `n` entries, in order.
pub open spec fn selected(patterns: Seq<Seq<char>>, entries: Seq<WalkView>, n: nat) -> Option<
    Seq<WalkView>,
>
    decreases n,
{
    if n == 0 {
        Some(Seq::empty())
    } else {
        match selected(patterns, entries, (n - 1) as nat) {
            None => None,
            Some(before) => match selects(patterns, entries[n - 1]) {
                None => None,
                Some(true) => Some(before.push(entries[n - 1])),
                Some(false) => Some(before),
            },
        }
    }
}

proof fn lemma_selected_none(
    patterns: Seq<Seq<char>>,
    entries: Seq<WalkView>,
    n: nat,
    more: nat,
)
    requires
        n <= more,
        selected(patterns, entries, n) is None,
    ensures
        selected(patterns, entries, more) is None,
    decreases more - n,
{
    if n < more {
        lemma_selected_none(patterns, entries, n, (more - 1) as nat);
    }
}

/// Patterns are matched against the path below the root, and against
/// nothing where that path is no UTF-8.
pub proof fn lemma_what_patterns_are_matched_against(path: Seq<u8>)
    ensures
        valid_utf8(path) ==> path_text(seq![0x2fu8] + path) == path,
        !valid_utf8(path) ==> path_text(seq![0x2fu8] + path).len() == 0,
{
    assert((seq![0x2fu8] + path).skip(1) =~= path);
}

/// Whether a pattern matches an entry's path.
pub open spec fn is_match(patterns: Seq<Seq<char>>, path: Seq<u8>, i: int) -> bool {
    0 <= i < patterns.len() && glob(encode_utf8(patterns[i]), path_text(path)) == Some(true)
}

proof fn lemma_any_match(patterns: Seq<Seq<char>>, path: Seq<u8>, i: nat)
    requires
        any_match(patterns, path_text(path), i) == Some(true),
    ensures
        exists|j: int| #[trigger] is_match(patterns, path, j),
    decreases patterns.len() - i,
{
    if glob(encode_utf8(patterns[i as int]), path_text(path)) == Some(false) {
        lemma_any_match(patterns, path, i + 1);
    } else {
        assert(is_match(patterns, path, i as int));
    }
}

/// An entry that is selected is the root or has a path that one of the
/// patterns matches, a directory like any other.
pub proof fn lemma_selected_entries_match(
    patterns: Seq<Seq<char>>,
    entries: Seq<WalkView>,
    n: nat,
    k: int,
)
    requires
        patterns.len() > 0,
        selected(patterns, entries, n) is Some,
        0 <= k < selected(patterns, entries, n)->0.len(),
    ensures
        selected(patterns, entries, n)->0[k].path.len() == 0 || exists|j: int| #[trigger]
            is_match(patterns, selected(patterns, entries, n)->0[k].path, j),
    decreases n,
{
    let before = selected(patterns, entries, (n - 1) as nat)->0;
    if k < before.len() {
        lemma_selected_entries_match(patterns, entries, (n - 1) as nat, k);
        assert(selected(patterns, entries, n)->0[k] == before[k]);
    } else if entries[n - 1].path.len() > 0 {
        lemma_any_match(patterns, entries[n - 1].path, 0);
    }
}

/// Whether one of the patterns matches a root-relative path.
pub open spec fn some_pattern_matches(patterns: Seq<Seq<char>>, path: Seq<u8>) -> bool {
    exists|j: int|
        0 <= j < patterns.len() && #[trigger] glob(encode_utf8(patterns[j]), path) == Some(true)
}

proof fn lemma_any_match_is_some_match(patterns: Seq<Seq<char>>, text: Seq<u8>, i: nat)
    requires
        forall|j: int|
            0 <= j < patterns.len() ==> #[trigger] glob(encode_utf8(patterns[j]), text) is Some,
        forall|j: int|
            0 <= j < i && j < patterns.len() ==> #[trigger] glob(encode_utf8(patterns[j]), text)
                == Some(false),
    ensures
        any_match(patterns, text, i) == Some(some_pattern_matches(patterns, text)),
    decreases patterns.len() - i,
{
    if i < patterns.len() {
        let verdict = glob(encode_utf8(patterns[i as int]), text);
        if verdict == Some(false) {
            lemma_any_match_is_some_match(patterns, text, i + 1);
        } else {
            assert(verdict == Some(true));
        }
    }
}

/// The selection keeps exactly the root and the entries whose path, without
/// its leading `/`, one of the patterns matches, all of them without
/// patterns, in the order of the walk.
pub proof fn lemma_selection_goes_by_the_patterns(
    patterns: Seq<Seq<char>>,
    entries: Seq<WalkView>,
    n: nat,
)
    requires
        n <= entries.len(),
        forall|i: int|
            0 <= i < entries.len() ==> (#[trigger] entries[i]).path.len() == 0 || (
            entries[i].path[0] == 0x2f && valid_utf8(entries[i].path.skip(1))),
        forall|i: int, j: int|
            0 <= i < entries.len() && 0 <= j < patterns.len() ==> #[trigger] glob(
                encode_utf8(patterns[j]),
                #[trigger] entries[i].path.skip(1),
            ) is Some,
    ensures
        selected(patterns, entries, n) == Some(
            entries.take(n as int).filter(
                |e: WalkView|
                    e.path.len() == 0 || patterns.len() == 0 || some_pattern_matches(
                        patterns,
                        e.path.skip(1),
                    ),
            ),
        ),
    decreases n,
{
    reveal(Seq::filter);
    if n > 0 {
        lemma_selection_goes_by_the_patterns(patterns, entries, (n - 1) as nat);
        assert(entries.take(n as int).drop_last() =~= entries.take(n - 1));
        let e = entries[n - 1];
        assert(entries.take(n as int).last() == e);
        if e.path.len() > 0 && patterns.len() > 0 {
            assert(path_text(e.path) == e.path.skip(1));
            assert forall|j: int| 0 <= j < patterns.len() implies #[trigger] glob(
                encode_utf8(patterns[j]),
                e.path.skip(1),
            ) is Some by {
                assert(glob(encode_utf8(patterns[j]), entries[n - 1].path.skip(1)) is Some);
            }
            lemma_any_match_is_some_match(patterns, e.path.skip(1), 0);
        }
    } else {
        assert(entries.take(0) =~= Seq::<WalkView>::empty());
    }
}

/// Keep the entries that the options select. The directories above a
/// selected entry are not among them unless they match themselves; they
/// are made when the entry is. `None` where a pattern that had to be tried
/// is none for a path.
pub fn select_entries(entries: Vec<WalkEntry>, options: &ExtractOptions) -> (r: Option<
    Vec<WalkEntry>,
>)
    ensures
        match r {
            Some(v) => selected(
                texts(options.include_patterns@),
                walk_views(entries@),
                entries@.len(),
            ) == Some(walk_views(v@)),
            None => selected(
                texts(options.include_patterns@),
                walk_views(entries@),
                entries@.len(),
            ) is None,
        },
{
    let ghost all = walk_views(entries@);
    let ghost patterns = texts(options.include_patterns@);
    let mut out: Vec<WalkEntry> = Vec::new();
    assert(walk_views(out@) =~= Seq::<WalkView>::empty());
    let mut i: usize = 0;
    while i < entries.len()
        invariant
            i <= entries@.len(),
            all == walk_views(entries@),
            patterns == texts(options.include_patterns@),
            selected(patterns, all, i as nat) == Some(walk_views(out@)),
        decreases entries@.len() - i,
    {
        assert(all[i as int] == entries@[i as int]@);
        match options.matches(&entries[i]) {
            None => {
                proof {
                    lemma_selected_none(patterns, all, (i + 1) as nat, all.len());
                }
                return None;
            },
            Some(keep) => {
                if keep {
                    let one: WalkEntry = entries[i].clone();
                    let ghost before = out@;
                    out.push(one);
                    assert(walk_views(out@) =~= walk_views(before).push(all[i as int]));
                }
            },
        }
        i = i + 1;
    }
    Some(out)
}

/// Which of the entries from index `i` on write a content first: the first
/// regular file of each content id that is not in `seen`.
pub open spec fn first_writers(
    v: TreeView,
    entries: Seq<WalkView>,
    i: nat,
    seen: Set<u32>,
    acc: Seq<usize>,
) -> Result<Seq<usize>, ErrorView>
    decreases entries.len() - i,
{
    if i >= entries.len() {
        Ok(acc)
    } else if entries[i as int].kind != InodeKind::Regular {
        first_writers(v, entries, i + 1, seen, acc)
    } else {
        match v.content_id(entries[i as int].inode) {
            Err(e) => Err(e),
            Ok(id) => if seen.contains(id) {
                first_writers(v, entries, i + 1, seen, acc)
            } else {
                first_writers(v, entries, i + 1, seen.insert(id), acc.push(i as usize))
            },
        }
    }
}

/// The content id of an entry.
pub open spec fn entry_content(v: TreeView, entries: Seq<WalkView>, i: int) -> u32 {
    v.content_id(entries[i].inode)->Ok_0
}

/// Whether `picked` are regular files with distinct contents, and every
/// regular file among the first `n` entries has the content of one.
pub open spec fn covers_contents(
    v: TreeView,
    entries: Seq<WalkView>,
    n: int,
    picked: Seq<usize>,
) -> bool {
    &&& forall|k: int|
        0 <= k < picked.len() ==> (#[trigger] picked[k]) < n && entries[picked[k] as int].kind
            == InodeKind::Regular
    &&& forall|a: int, b: int|
        0 <= a < b < picked.len() ==> entry_content(v, entries, #[trigger] picked[a] as int)
            != entry_content(v, entries, #[trigger] picked[b] as int)
    &&& forall|j: int|
        0 <= j < n && (#[trigger] entries[j]).kind == InodeKind::Regular ==> has_content(
            v,
            entries,
            picked,
            entry_content(v, entries, j),
        )
}

/// Whether one of the picked entries has a content.
pub open spec fn has_content(
    v: TreeView,
    entries: Seq<WalkView>,
    picked: Seq<usize>,
    content: u32,
) -> bool {
    exists|k: int|
        0 <= k < picked.len() && entry_content(v, entries, #[trigger] picked[k] as int) == content
}

proof fn lemma_first_writers_from(
    v: TreeView,
    entries: Seq<WalkView>,
    i: nat,
    seen: Set<u32>,
    acc: Seq<usize>,
)
    requires
        i <= entries.len() <= usize::MAX,
        covers_contents(v, entries, i as int, acc),
        forall|id: u32| #[trigger] seen.contains(id) <==> has_content(v, entries, acc, id),
        first_writers(v, entries, i, seen, acc) is Ok,
    ensures
        covers_contents(
            v,
            entries,
            entries.len() as int,
            first_writers(v, entries, i, seen, acc)->Ok_0,
        ),
    decreases entries.len() - i,
{
    if i < entries.len() {
        if entries[i as int].kind != InodeKind::Regular {
            lemma_first_writers_from(v, entries, i + 1, seen, acc);
        } else {
            let id = entry_content(v, entries, i as int);
            if seen.contains(id) {
                lemma_first_writers_from(v, entries, i + 1, seen, acc);
            } else {
                let more = acc.push(i as usize);
                assert forall|x: u32| has_content(v, entries, more, x) <==> has_content(
                    v,
                    entries,
                    acc,
                    x,
                ) || x == id by {
                    if has_content(v, entries, acc, x) {
                        let k = choose|k: int|
                            0 <= k < acc.len() && entry_content(
                                v,
                                entries,
                                #[trigger] acc[k] as int,
                            ) == x;
                        assert(more[k] == acc[k]);
                    }
                    assert(more[acc.len() as int] == i);
                    if has_content(v, entries, more, x) && x != id {
                        let k = choose|k: int|
                            0 <= k < more.len() && entry_content(
                                v,
                                entries,
                                #[trigger] more[k] as int,
                            ) == x;
                        assert(acc[k] == more[k]);
                    }
                }
                assert(covers_contents(v, entries, i as int + 1, more)) by {
                    assert forall|a: int, b: int| 0 <= a < b < more.len() implies entry_content(
                        v,
                        entries,
                        #[trigger] more[a] as int,
                    ) != entry_content(v, entries, #[trigger] more[b] as int) by {
                        assert(more[a] == acc[a]);
                        if b == acc.len() {
                            assert(has_content(
                                v,
                                entries,
                                acc,
                                entry_content(v, entries, acc[a] as int),
                            ));
                        } else {
                            assert(more[b] == acc[b]);
                        }
                    }
                }
                lemma_first_writers_from(v, entries, i + 1, seen.insert(id), more);
            }
        }
    }
}

/// The entries that write first have distinct contents, and every regular
/// file has the content of one of them: each content is written once.
pub proof fn lemma_each_content_is_written_once(v: TreeView, entries: Seq<WalkView>)
    requires
        entries.len() <= usize::MAX,
        first_writers(v, entries, 0, Set::empty(), Seq::empty()) is Ok,
    ensures
        covers_contents(
            v,
            entries,
            entries.len() as int,
            first_writers(v, entries, 0, Set::empty(), Seq::empty())->Ok_0,
        ),
{
    lemma_first_writers_from(v, entries, 0, Set::empty(), Seq::empty());
}

/// The block of an entry's first chunk as a sort key; a file without one
/// comes first.
pub open spec fn block_key(block: Option<u32>) -> u64 {
    match block {
        None => 0,
        Some(b) => (b + 1) as u64,
    }
}

/// What an entry is sorted by.
pub open spec fn visit_key(v: TreeView, entries: Seq<WalkView>, i: usize) -> (u64, u32, usize) {
    let inode = entries[i as int].inode;
    (block_key(v.first_block(inode)), inode, i)
}

/// Whether a sort key comes at or before another.
pub open spec fn key_le(a: (u64, u32, usize), b: (u64, u32, usize)) -> bool {
    a.0 < b.0 || (a.0 == b.0 && (a.1 < b.1 || (a.1 == b.1 && a.2 <= b.2)))
}

/// `slice::sort` on tuples of integers: the same elements, in ascending
/// lexicographic order.
#[verifier::external_body]
fn sort_keys(keys: &mut Vec<(u64, u32, usize)>)
    ensures
        final(keys)@.to_multiset() == old(keys)@.to_multiset(),
        final(keys)@.len() == old(keys)@.len(),
        forall|i: int, j: int|
            0 <= i <= j < final(keys)@.len() ==> key_le(
                #[trigger] final(keys)@[i],
                #[trigger] final(keys)@[j],
            ),
{
    keys.sort()
}

/// The order in which files are written: those that write a content first,
/// by the block of their first chunk, then by inode.
pub open spec fn visits(
    v: TreeView,
    entries: Seq<WalkView>,
    firsts: Seq<usize>,
    order: Seq<usize>,
) -> bool {
    &&& order.len() == firsts.len()
    &&& order.map_values(|i: usize| visit_key(v, entries, i)).to_multiset() == firsts.map_values(
        |i: usize| visit_key(v, entries, i),
    ).to_multiset()
    &&& forall|i: int, j: int|
        0 <= i <= j < order.len() ==> key_le(
            visit_key(v, entries, #[trigger] order[i]),
            visit_key(v, entries, #[trigger] order[j]),
        )
}

/// Indices of the entries that write a content first, in block order.
///
/// Every distinct content is written at most once; later files that refer
/// to the same content become links. A bounded cache then sees each block
/// once for a run of files rather than once per file, which is the
/// difference between decompressing a block and decompressing it again
/// for every file that lives in it.
pub fn plan_writers(tree: &Tree, entries: &[WalkEntry]) -> (r: Result<Vec<usize>, Error>)
    ensures
        match first_writers(tree@, walk_views(entries@), 0, Set::empty(), Seq::empty()) {
            Err(e) => viewed(r) == Err::<Seq<usize>, ErrorView>(e),
            Ok(firsts) => r matches Ok(order) && visits(
                tree@,
                walk_views(entries@),
                firsts,
                order@,
            ),
        },
{
    let ghost v = tree@;
    let ghost all = walk_views(entries@);
    let ghost key = |i: usize| visit_key(v, all, i);
    let mut seen: BTreeMap<u32, ()> = BTreeMap::new();
    let mut keys: Vec<(u64, u32, usize)> = Vec::new();
    let ghost mut firsts: Seq<usize> = Seq::empty();
    assert(seen@.dom() =~= Set::<u32>::empty());
    assert(keys@ =~= firsts.map_values(key));
    let mut i: usize = 0;
    while i < entries.len()
        invariant
            i <= entries@.len(),
            v == tree@,
            all == walk_views(entries@),
            key == (|i: usize| visit_key(v, all, i)),
            keys@ == firsts.map_values(key),
            forall|k: int| 0 <= k < firsts.len() ==> #[trigger] firsts[k] < all.len(),
            first_writers(v, all, 0, Set::empty(), Seq::empty()) == first_writers(
                v,
                all,
                i as nat,
                seen@.dom(),
                firsts,
            ),
        decreases entries@.len() - i,
    {
        assert(all[i as int] == entries@[i as int]@);
        if entries[i].kind == InodeKind::Regular {
            let inode: u32 = entries[i].inode;
            let id: u32 = tree.content_id(inode)?;
            let ghost before = seen@;
            let known: Option<()> = seen.insert(id, ());
            if known.is_none() {
                let block: u64 = match tree.first_block(inode) {
                    Some(b) => b as u64 + 1,
                    None => 0,
                };
                let ghost old_keys = keys@;
                let ghost old_firsts = firsts;
                keys.push((block, inode, i));
                proof {
                    firsts = firsts.push(i);
                    assert(keys@ =~= firsts.map_values(key));
                    assert(seen@.dom() =~= before.dom().insert(id));
                }
            } else {
                assert(seen@.dom() =~= before.dom());
            }
        }
        i = i + 1;
    }
    let ghost unsorted = keys@;
    sort_keys(&mut keys);
    let mut order: Vec<usize> = Vec::new();
    proof {
        assert forall|k: int| 0 <= k < keys@.len() implies (#[trigger] keys@[k]).2 < all.len()
            && keys@[k] == visit_key(v, all, keys@[k].2) by {
            lemma_same_elements(unsorted, keys@, k);
            let j = choose|j: int| 0 <= j < unsorted.len() && unsorted[j] == keys@[k];
            assert(unsorted[j] == key(firsts[j]));
        }
    }
    let mut k: usize = 0;
    while k < keys.len()
        invariant
            k <= keys@.len(),
            order@.len() == k,
            forall|j: int| 0 <= j < k ==> #[trigger] order@[j] == keys@[j].2,
        decreases keys@.len() - k,
    {
        order.push(keys[k].2);
        k = k + 1;
    }
    proof {
        assert(order@.map_values(key) =~= keys@);
        assert(visits(v, all, firsts, order@)) by {
            assert(key =~= (|i: usize| visit_key(v, all, i)));
            assert forall|a: int, b: int| 0 <= a <= b < order@.len() implies key_le(
                visit_key(v, all, #[trigger] order@[a]),
                visit_key(v, all, #[trigger] order@[b]),
            ) by {
                assert(key_le(keys@[a], keys@[b]));
            }
        }
    }
    Ok(order)
}

proof fn lemma_same_elements(a: Seq<(u64, u32, usize)>, b: Seq<(u64, u32, usize)>, k: int)
    requires
        a.to_multiset() == b.to_multiset(),
        0 <= k < b.len(),
    ensures
        exists|j: int| 0 <= j < a.len() && a[j] == b[k],
{
    broadcast use vstd::seq_lib::group_to_multiset_ensures;

    assert(b.contains(b[k]));
    assert(b.to_multiset().count(b[k]) > 0);
    assert(a.to_multiset().count(b[k]) > 0);
    assert(a.contains(b[k]));
}

/// Accumulated counters of an extraction.
#[derive(Debug, Clone, Copy)]
pub struct ExtractStats {
    /// Number of directories created.
    pub directories: u64,
    /// Number of regular files written (excluding hard links).
    pub files: u64,
    /// Number of hard links created instead of file copies.
    pub hardlinks: u64,
    /// Number of symlinks created.
    pub symlinks: u64,
    /// Number of entries skipped because the inode kind is not yet
    /// supported (devices, FIFOs, sockets).
    pub skipped: u64,
    /// Number of entries that failed when `continue_on_error` was set.
    pub errors: u64,
}

impl View for ExtractStats {
    type V = ExtractStats;

    open spec fn view(&self) -> ExtractStats {
        *self
    }
}

impl ExtractStats {
    /// Nothing done yet.
    pub open spec fn zero() -> ExtractStats {
        ExtractStats { directories: 0, files: 0, hardlinks: 0, symlinks: 0, skipped: 0, errors: 0 }
    }
}

impl Default for ExtractStats {
    fn default() -> (r: Self)
        ensures
            r == ExtractStats::zero(),
    {
        ExtractStats { directories: 0, files: 0, hardlinks: 0, symlinks: 0, skipped: 0, errors: 0 }
    }
}

/// What was done for an entry.
#[derive(Debug, Clone, Copy, PartialEq, Eq, Structural)]
pub enum Done {
    /// A directory was made.
    Directory,
    /// A regular file was written.
    File,
    /// A hard link was made.
    Hardlink,
    /// A symlink was made.
    Symlink,
    /// The entry's kind cannot be extracted.
    Skipped,
}

/// One more, up to the limit of the counter.
pub open spec fn bump(n: u64) -> u64 {
    if n == u64::MAX {
        n
    } else {
        (n + 1) as u64
    }
}

impl ExtractStats {
    /// The counters after something was done.
    pub open spec fn after(self, done: Done) -> ExtractStats {
        match done {
            Done::Directory => ExtractStats { directories: bump(self.directories), ..self },
            Done::File => ExtractStats { files: bump(self.files), ..self },
            Done::Hardlink => ExtractStats { hardlinks: bump(self.hardlinks), ..self },
            Done::Symlink => ExtractStats { symlinks: bump(self.symlinks), ..self },
            Done::Skipped => ExtractStats { skipped: bump(self.skipped), ..self },
        }
    }
}

/// What is to be done for a regular file once the first writers are done.
#[derive(Debug, Clone, Copy, PartialEq, Eq, Structural)]
pub enum FileStep {
    /// The file is the one that was written.
    Skip,
    /// Link to the entry at this index.
    Link(usize),
    /// Copy the entry at this index.
    Copy(usize),
    /// Write the file itself.
    Write,
}

/// The state of an extraction.
#[verifier::ext_equal]
pub struct ExtractionView {
    pub continue_on_error: bool,
    pub hardlink_shared: bool,
    pub stats: ExtractStats,
    /// The entry that holds each content written so far.
    pub written: Map<u32, usize>,
}

impl ExtractionView {
    /// What is to be done for a regular file, `same` telling whether the
    /// entry that holds its content has the same destination.
    pub open spec fn file_step(self, content: u32, same: bool) -> FileStep {
        if !self.written.contains_key(content) {
            FileStep::Write
        } else if same {
            FileStep::Skip
        } else if self.hardlink_shared {
            FileStep::Link(self.written[content])
        } else {
            FileStep::Copy(self.written[content])
        }
    }

    /// What the extraction ends in.
    pub open spec fn outcome(self) -> Result<ExtractStats, ErrorView> {
        if self.stats.errors > 0 {
            Err(
                ErrorView::Decode {
                    codec: "fs-extract"@,
                    message: dec(self.stats.errors as nat) + " entries failed during extraction"@,
                },
            )
        } else {
            Ok(self.stats)
        }
    }
}

/// The counters of an extraction and the contents it has written.
pub struct Extraction {
    continue_on_error: bool,
    hardlink_shared: bool,
    stats: ExtractStats,
    written: BTreeMap<u32, usize>,
}

impl View for Extraction {
    type V = ExtractionView;

    closed spec fn view(&self) -> ExtractionView {
        ExtractionView {
            continue_on_error: self.continue_on_error,
            hardlink_shared: self.hardlink_shared,
            stats: self.stats,
            written: self.written@,
        }
    }
}

impl Extraction {
    /// An extraction that has done nothing yet.
    pub fn new(options: &ExtractOptions) -> (r: Self)
        ensures
            r@ == (ExtractionView {
                continue_on_error: options.continue_on_error,
                hardlink_shared: options.hardlink_shared,
                stats: ExtractStats::zero(),
                written: Map::empty(),
            }),
    {
        Extraction {
            continue_on_error: options.continue_on_error,
            hardlink_shared: options.hardlink_shared,
            stats: ExtractStats::default(),
            written: BTreeMap::new(),
        }
    }

    /// Count what was done for an entry.
    pub fn succeeded(&mut self, done: Done)
        ensures
            final(self)@ == (ExtractionView { stats: old(self)@.stats.after(done), ..old(self)@ }),
    {
        match done {
            Done::Directory => {
                self.stats.directories = self.stats.directories.saturating_add(1);
            },
            Done::File => {
                self.stats.files = self.stats.files.saturating_add(1);
            },
            Done::Hardlink => {
                self.stats.hardlinks = self.stats.hardlinks.saturating_add(1);
            },
            Done::Symlink => {
                self.stats.symlinks = self.stats.symlinks.saturating_add(1);
            },
            Done::Skipped => {
                self.stats.skipped = self.stats.skipped.saturating_add(1);
            },
        }
    }

    /// Take note of an entry that failed. Returns whether the extraction
    /// goes on: it aborts, uncounted, unless told to continue.
    pub fn failed(&mut self) -> (goes_on: bool)
        ensures
            goes_on == old(self)@.continue_on_error,
            final(self)@ == (if goes_on {
                ExtractionView {
                    stats: ExtractStats {
                        errors: bump(old(self)@.stats.errors),
                        ..old(self)@.stats
                    },
                    ..old(self)@
                }
            } else {
                old(self)@
            }),
    {
        if self.continue_on_error {
            self.stats.errors = self.stats.errors.saturating_add(1);
        }
        self.continue_on_error
    }

    /// Take note that the entry at an index holds a content.
    pub fn wrote(&mut self, content: u32, entry: usize)
        ensures
            final(self)@ == (ExtractionView {
                written: old(self)@.written.insert(content, entry),
                ..old(self)@
            }),
    {
        self.written.insert(content, entry);
    }

    /// The entry that holds a content, when one does.
    pub fn writer_of(&self, content: u32) -> (r: Option<usize>)
        ensures
            match r {
                Some(entry) => self@.written.contains_key(content) && self@.written[content]
                    == entry,
                None => !self@.written.contains_key(content),
            },
    {
        match self.written.get(&content) {
            Some(entry) => Some(*entry),
            None => None,
        }
    }

    /// What is to be done for a regular file with this content, `same`
    /// telling whether the entry that holds the content has the same
    /// destination.
    pub fn file_step(&self, content: u32, same: bool) -> (r: FileStep)
        ensures
            r == self@.file_step(content, same),
    {
        match self.writer_of(content) {
            None => FileStep::Write,
            Some(entry) => if same {
                FileStep::Skip
            } else if self.hardlink_shared {
                FileStep::Link(entry)
            } else {
                FileStep::Copy(entry)
            },
        }
    }

    /// End the extraction.
    pub fn finish(self) -> (r: Result<ExtractStats, Error>)
        ensures
            viewed(r) == self@.outcome(),
    {
        if self.stats.errors > 0 {
            proof {
                let n = dec(self.stats.errors as nat);
                assert(Seq::<char>::empty() + n =~= n);
            }
            return Err(
                Error::Decode {
                    codec: "fs-extract",
                    message: Text::empty().num(self.stats.errors).str(
                        " entries failed during extraction",
                    ).done(),
                },
            );
        }
        Ok(self.stats)
    }
}

/// Ceiling on decoded bytes an extraction keeps.
///
/// Workers run on different blocks at the same time, so a budget that
/// holds only a couple of blocks has them evicting each other and
/// decoding the same block more than once. This is a ceiling and not a
/// reservation: only blocks actually decoded are held.
pub const EXTRACT_CACHE_BYTES: usize = 536870912;

/// Cache budget of an extraction. Never below one block, because a read
/// has to be served from somewhere.
pub fn extract_cache_bytes(block_size: u32) -> (r: usize)
    ensures
        r == (if block_size > EXTRACT_CACHE_BYTES {
            block_size as usize
        } else {
            EXTRACT_CACHE_BYTES
        }),
{
    if block_size as usize > EXTRACT_CACHE_BYTES {
        block_size as usize
    } else {
        EXTRACT_CACHE_BYTES
    }
}

/// Buffer length for streaming a file of the given size.
pub fn stream_buffer_len(size: u64) -> (r: usize)
    ensures
        r == (if size >= 1048576 {
            1048576
        } else if size == 0 {
            1
        } else {
            size as int
        }),
{
    if size >= 1048576 {
        1048576
    } else if size == 0 {
        1
    } else {
        size as usize
    }
}

/// A position in a file that is being read from front to back.
#[verifier::ext_equal]
pub struct CursorView {
    pub inode: u32,
    pub offset: u64,
    pub remaining: u64,
}

/// Streams one file in order. Bounded by the file's logical size; once
/// exhausted it returns nothing more.
pub struct FileCursor {
    inode: u32,
    offset: u64,
    remaining: u64,
}

impl View for FileCursor {
    type V = CursorView;

    closed spec fn view(&self) -> CursorView {
        CursorView { inode: self.inode, offset: self.offset, remaining: self.remaining }
    }
}

impl CursorView {
    /// The bytes that a read into a buffer of length `len` asks for.
    pub open spec fn wanted(self, len: nat) -> nat {
        if len < self.remaining {
            len
        } else {
            self.remaining as nat
        }
    }

    /// The cursor after `n` bytes were read.
    pub open spec fn advanced(self, n: nat) -> CursorView {
        CursorView {
            offset: (self.offset + n) as u64,
            remaining: (self.remaining - n) as u64,
            ..self
        }
    }
}

/// Reading a file through a cursor gives its contents in order: where the
/// bytes read so far are the front of the file, they still are after the
/// next read, which reaches as far as the buffer or the file allows.
pub proof fn lemma_cursor_streams(v: FsView, c: CursorView, len: nat)
    requires
        v.tree.consistent(),
        v.tree.kind(c.inode) == Ok::<InodeKind, ErrorView>(InodeKind::Regular),
        v.read_file(c.inode) is Ok,
        v.tree.file_size(c.inode)->Ok_0 == c.offset + c.remaining,
        len <= usize::MAX,
    ensures
        ({
            let all = v.read_file(c.inode)->Ok_0;
            let n = c.wanted(len);
            let next = c.advanced(n);
            &&& v.read_at(c.inode, c.offset, n as u64) is Ok
            &&& all.take(c.offset as int) + v.read_at(c.inode, c.offset, n as u64)->Ok_0
                == all.take(next.offset as int)
            &&& next.offset + next.remaining == c.offset + c.remaining
            &&& n == 0 ==> len == 0 || all.take(c.offset as int) == all
        }),
{
    let all = v.read_file(c.inode)->Ok_0;
    let n = c.wanted(len);
    lemma_file_contents(v, c.inode, c.offset, n);
    let size = v.tree.file_size(c.inode)->Ok_0;
    assert(FsView::available(size, c.offset, n as u64) == n);
    let bytes = all.subrange(c.offset as int, c.offset + n);
    assert(all.take(c.offset as int) + bytes =~= all.take(c.offset + n));
    if c.remaining == 0 {
        assert(all.take(c.offset as int) =~= all);
    }
}

impl FileCursor {
    /// The cursor stays inside the file's offsets.
    #[verifier::type_invariant]
    closed spec fn wf(&self) -> bool {
        self.offset + self.remaining <= u64::MAX
    }

    /// Start at the front of a file of the given size.
    pub fn new(inode: u32, size: u64) -> (r: Self)
        ensures
            r@ == (CursorView { inode, offset: 0, remaining: size }),
    {
        FileCursor { inode, offset: 0, remaining: size }
    }

    /// Read the next bytes into the front of `buf`, returning how many. A
    /// failed read moves neither the cursor nor a byte of `buf`.
    pub fn read<S: ImageSource>(
        &mut self,
        fs: &Filesystem<S>,
        buf: &mut [u8],
        cache: &mut BlockCache,
    ) -> (r: Result<usize, Error>)
        ensures
            final(buf)@.len() == old(buf)@.len(),
            old(self)@.wanted(old(buf)@.len()) == 0 ==> r is Ok && r->Ok_0 == 0 && final(self)@
                == old(self)@ && final(buf)@ == old(buf)@ && final(cache)@ == old(cache)@,
            r matches Ok(n) ==> n <= old(self)@.wanted(old(buf)@.len()) && final(self)@ == old(
                self,
            )@.advanced(n as nat),
            r is Err ==> final(self)@ == old(self)@ && final(buf)@ == old(buf)@,
            old(self)@.wanted(old(buf)@.len()) > 0 && agrees(old(cache)@, fs@) ==> agrees(
                final(cache)@,
                fs@,
            ) && read_outcome(
                r,
                old(buf)@,
                final(buf)@,
                fs.reliable(),
                fs@.read_at(
                    old(self)@.inode,
                    old(self)@.offset,
                    old(self)@.wanted(old(buf)@.len()) as u64,
                ),
            ),
            final(cache)@.budget == old(cache)@.budget,
            within_budget(final(cache)@),
    {
        proof {
            use_type_invariant(&*self);
            use_type_invariant(&*cache);
            cache.lemma_wf();
        }
        if self.remaining == 0 || buf.len() == 0 {
            return Ok(0);
        }
        let len: u64 = buf.len() as u64;
        let want: u64 = if len < self.remaining {
            len
        } else {
            self.remaining
        };
        let bytes: Vec<u8> = fs.read_at(self.inode, self.offset, want, cache)?;
        let n: usize = bytes.len();
        let ghost before = buf@;
        let mut k: usize = 0;
        while k < n
            invariant
                k <= n == bytes@.len(),
                n <= buf@.len() == before.len(),
                forall|j: int| 0 <= j < k ==> #[trigger] buf@[j] == bytes@[j],
                forall|j: int| k <= j < before.len() ==> buf@[j] == before[j],
            decreases n - k,
        {
            buf[k] = bytes[k];
            k = k + 1;
        }
        assert(buf@ =~= bytes@ + before.skip(n as int));
        let offset: u64 = self.offset + n as u64;
        let remaining: u64 = self.remaining - n as u64;
        *self = FileCursor { inode: self.inode, offset, remaining };
        Ok(n)
    }
}

} // verus!
