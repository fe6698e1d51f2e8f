//! JSON output.

use crate::cli::details::{flag, push_flag, resolution_of};
use crate::cli::report::str_views;
use crate::error::{Error, ErrorView};
use crate::format::source::ImageSource;
use crate::fs::inode::InodeKind;
use crate::fs::offsets::InodeOffsets;
use crate::fs::read::Filesystem;
use crate::fs::tree::{Stat, Tree, TreeView, distinct_from};
use crate::fs::walk::{WalkEntry, WalkView};
use crate::metadata::model::FsOptions;
use crate::text::{Text, chars_of, dec, hex};
use crate::utf8::{lossy_of, lossy_text};
use vstd::prelude::*;

verus! {

/// A character inside a JSON string.
pub open spec fn json_char(c: char) -> Seq<char> {
    if c == '"' {
        "\\\""@
    } else if c == '\\' {
        "\\\\"@
    } else if c == '\n' {
        "\\n"@
    } else if c == '\r' {
        "\\r"@
    } else if c == '\t' {
        "\\t"@
    } else if ' ' > c {
        "\\u"@ + hex(c as u32 as nat, 4)
    } else {
        seq![c]
    }
}

/// The characters from index `i` on inside a JSON string.
pub open spec fn json_chars(s: Seq<char>, i: nat) -> Seq<char>
    decreases s.len() - i,
{
    if i >= s.len() {
        Seq::empty()
    } else {
        json_char(s[i as int]) + json_chars(s, i + 1)
    }
}

/// A text as a JSON string.
pub open spec fn json_text(s: Seq<char>) -> Seq<char> {
    "\""@ + json_chars(s, 0) + "\""@
}

/// JSON-quote a string. Escapes the minimum needed (backslash,
/// double-quote, control bytes) so the output stays one line per
/// inode and parseable by any JSON consumer.
pub fn json_string(s: &str) -> (r: String)
    ensures
        r@ == json_text(s@),
{
    let chars: Vec<char> = chars_of(s);
    let mut t = Text::of("\"");
    let ghost want = "\""@ + json_chars(s@, 0);
    let mut i: usize = 0;
    while i < chars.len()
        invariant
            i <= chars@.len(),
            chars@ == s@,
            want == t@ + json_chars(s@, i as nat),
        decreases chars@.len() - i,
    {
        let c: char = chars[i];
        let ghost before = t@;
        let ghost rest = json_chars(s@, (i + 1) as nat);
        t = if c == '"' {
            t.str("\\\"")
        } else if c == '\\' {
            t.str("\\\\")
        } else if c == '\n' {
            t.str("\\n")
        } else if c == '\r' {
            t.str("\\r")
        } else if c == '\t' {
            t.str("\\t")
        } else if ' ' > c {
            let out = t.str("\\u").hex((c as u32) as u64, 4);
            assert(out@ =~= before + ("\\u"@ + hex(c as u32 as nat, 4)));
            out
        } else {
            let out = t.chr(c);
            assert(out@ =~= before + seq![c]);
            out
        };
        assert(t@ == before + json_char(c));
        assert(before + (json_char(c) + rest) =~= t@ + rest);
        i = i + 1;
    }
    assert(t@ + Seq::<char>::empty() =~= t@);
    t.str("\"").done()
}

/// A JSON string holds no line break and no other control character.
pub proof fn lemma_json_is_one_line(s: Seq<char>)
    ensures
        forall|k: int| 0 <= k < json_text(s).len() ==> (#[trigger] json_text(s)[k]) >= ' ',
{
    lemma_json_chars_printable(s, 0);
    reveal_strlit("\"");
}

proof fn lemma_hex_printable(n: nat, width: nat)
    ensures
        forall|k: int|
            0 <= k < hex(n, width).len() ==> (#[trigger] hex(n, width)[k]) >= ' ',
{
    crate::text::lemma_radix_printable(n, 16);
}

proof fn lemma_json_chars_printable(s: Seq<char>, i: nat)
    ensures
        forall|k: int|
            0 <= k < json_chars(s, i).len() ==> (#[trigger] json_chars(s, i)[k]) >= ' ',
    decreases s.len() - i,
{
    if i < s.len() {
        lemma_json_chars_printable(s, i + 1);
        reveal_strlit("\\\"");
        reveal_strlit("\\\\");
        reveal_strlit("\\n");
        reveal_strlit("\\r");
        reveal_strlit("\\t");
        reveal_strlit("\\u");
        lemma_hex_printable(s[i as int] as u32 as nat, 4);
        let c = json_char(s[i as int]);
        let rest = json_chars(s, i + 1);
        assert forall|k: int| 0 <= k < json_chars(s, i).len() implies (#[trigger] json_chars(
            s,
            i,
        )[k]) >= ' ' by {
            if k < c.len() {
                assert(json_chars(s, i)[k] == c[k]);
            } else {
                assert(json_chars(s, i)[k] == rest[k - c.len()]);
            }
        }
    }
}

/// Texts as the elements of a JSON array, from index `i` on.
pub open spec fn json_items(parts: Seq<Seq<char>>, i: nat) -> Seq<char>
    decreases parts.len() - i,
{
    if i >= parts.len() {
        Seq::empty()
    } else {
        (if i > 0 {
            ","@
        } else {
            Seq::empty()
        }) + json_text(parts[i as int]) + json_items(parts, i + 1)
    }
}

fn push_items(t: Text, parts: &Vec<&str>) -> (r: Text)
    ensures
        r@ == t@ + json_items(str_views(parts@), 0),
{
    let ghost all = str_views(parts@);
    let ghost want = t@ + json_items(all, 0);
    let mut out = t;
    let mut i: usize = 0;
    while i < parts.len()
        invariant
            i <= parts@.len(),
            all == str_views(parts@),
            want == out@ + json_items(all, i as nat),
        decreases parts@.len() - i,
    {
        let ghost before = out@;
        let ghost rest = json_items(all, (i + 1) as nat);
        let quoted: String = json_string(parts[i]);
        assert(quoted@ == json_text(all[i as int]));
        if i > 0 {
            out = out.str(",").str(quoted.as_str());
            assert(before + (","@ + quoted@ + rest) =~= out@ + rest);
        } else {
            out = out.str(quoted.as_str());
            assert(before + (Seq::<char>::empty() + quoted@ + rest) =~= out@ + rest);
        }
        i = i + 1;
    }
    assert(out@ + Seq::<char>::empty() =~= out@);
    out
}

/// The options that are set, by name, in the order of the JSON summary.
pub open spec fn json_options(o: FsOptions) -> Seq<Seq<char>> {
    let n = flag(Seq::empty(), o.packed_chunk_table, "packed_chunk_table"@);
    let n = flag(n, o.packed_directories, "packed_directories"@);
    let n = flag(n, o.packed_shared_files_table, "packed_shared_files_table"@);
    let n = flag(n, o.inodes_have_nlink, "inodes_have_nlink"@);
    let n = flag(n, o.has_btime, "has_btime"@);
    flag(n, o.mtime_only, "mtime_only"@)
}

/// Plain names as the elements of a JSON array, from index `i` on.
pub open spec fn name_items(parts: Seq<Seq<char>>, i: nat) -> Seq<char>
    decreases parts.len() - i,
{
    if i >= parts.len() {
        Seq::empty()
    } else {
        (if i > 0 {
            ","@
        } else {
            Seq::empty()
        }) + ("\""@ + parts[i as int] + "\""@) + name_items(parts, i + 1)
    }
}

fn push_name_items(t: Text, parts: &Vec<&str>) -> (r: Text)
    ensures
        r@ == t@ + name_items(str_views(parts@), 0),
{
    let ghost all = str_views(parts@);
    let ghost want = t@ + name_items(all, 0);
    let mut out = t;
    let mut i: usize = 0;
    while i < parts.len()
        invariant
            i <= parts@.len(),
            all == str_views(parts@),
            want == out@ + name_items(all, i as nat),
        decreases parts@.len() - i,
    {
        let ghost before = out@;
        let ghost rest = name_items(all, (i + 1) as nat);
        let quoted: String = Text::of("\"").str(parts[i]).str("\"").done();
        assert(quoted@ == "\""@ + all[i as int] + "\""@);
        if i > 0 {
            out = out.str(",").str(quoted.as_str());
            assert(before + (","@ + quoted@ + rest) =~= out@ + rest);
        } else {
            out = out.str(quoted.as_str());
            assert(before + (Seq::<char>::empty() + quoted@ + rest) =~= out@ + rest);
        }
        i = i + 1;
    }
    assert(out@ + Seq::<char>::empty() =~= out@);
    out
}

/// A member with a number.
pub open spec fn member(name: Seq<char>, n: nat) -> Seq<char> {
    "\""@ + name + "\":"@ + dec(n) + ","@
}

/// A member with a number, where there is one.
pub open spec fn optional_member(name: Seq<char>, n: Option<nat>) -> Seq<char> {
    match n {
        Some(n) => member(name, n),
        None => Seq::empty(),
    }
}

fn push_member(t: Text, name: &str, n: u64) -> (r: Text)
    ensures
        r@ == t@ + member(name@, n as nat),
{
    let ghost start = t@;
    let out = t.str("\"").str(name).str("\":").num(n).str(",");
    assert(out@ =~= start + member(name@, n as nat));
    out
}

/// The JSON object that summarises an image, as one line.
pub open spec fn json_summary_text(v: TreeView) -> Seq<char> {
    let t = v.tables;
    let o = v.offsets;
    "{"@ + member("block_size"@, t.block_size as nat) + member("inode_count"@, t.inodes.len())
        + member("total_fs_size"@, t.total_fs_size as nat) + optional_member(
        "total_allocated_fs_size"@,
        match t.total_allocated_fs_size {
            Some(n) => Some(n as nat),
            None => None,
        },
    ) + member("time_resolution_sec"@, resolution_of(t.options) as nat) + ("\"features\":["@
        + json_items(t.features, 0) + "],"@) + ("\"categories\":["@ + json_items(
        distinct_from(t.block_category_names, 0, Seq::empty()),
        0,
    ) + "],"@) + optional_member(
        "preferred_path_separator"@,
        match t.preferred_path_separator {
            Some(n) => Some(n as nat),
            None => None,
        },
    ) + member("dir_offset"@, o.dir_offset as nat) + member(
        "symlink_offset"@,
        o.symlink_offset as nat,
    ) + member("file_offset"@, o.file_offset as nat) + member(
        "shared_file_offset"@,
        o.shared_file_offset as nat,
    ) + member("device_offset"@, o.device_offset as nat) + member(
        "special_offset"@,
        o.special_offset as nat,
    ) + member("timestamp_base"@, t.timestamp_base as nat) + ("\"options\":["@ + name_items(
        json_options(t.options),
        0,
    ) + "]}\n"@)
}

/// A one-line JSON object summarizing the image.
#[verifier::rlimit(60)]
pub fn json_summary<S: ImageSource>(fs: &Filesystem<S>) -> (r: String)
    ensures
        r@ == json_summary_text(fs@.tree),
{
    let opts: FsOptions = fs.options();
    let offsets: InodeOffsets = fs.offsets();
    let mut options: Vec<&'static str> = Vec::new();
    assert(str_views(options@) =~= Seq::<Seq<char>>::empty());
    push_flag(&mut options, opts.packed_chunk_table, "packed_chunk_table");
    push_flag(&mut options, opts.packed_directories, "packed_directories");
    push_flag(&mut options, opts.packed_shared_files_table, "packed_shared_files_table");
    push_flag(&mut options, opts.inodes_have_nlink, "inodes_have_nlink");
    push_flag(&mut options, opts.has_btime, "has_btime");
    push_flag(&mut options, opts.mtime_only, "mtime_only");
    let mut t = Text::of("{");
    t = push_member(t, "block_size", fs.block_size() as u64);
    t = push_member(t, "inode_count", fs.inode_count() as u64);
    t = push_member(t, "total_fs_size", fs.total_fs_size());
    let ghost before = t@;
    match fs.total_allocated_fs_size() {
        Some(n) => {
            t = push_member(t, "total_allocated_fs_size", n);
        },
        None => {
            assert(before + Seq::<char>::empty() =~= before);
        },
    }
    let resolution: u32 = match opts.time_resolution_sec {
        Some(n) => n,
        None => 1,
    };
    t = push_member(t, "time_resolution_sec", resolution as u64);
    let ghost before = t@;
    let features: Vec<&str> = crate::cli::report::borrow_all(fs.features());
    t = push_items(t.str("\"features\":["), &features).str("],");
    assert(t@ =~= before + ("\"features\":["@ + json_items(str_views(features@), 0) + "],"@));
    let ghost before = t@;
    let categories: Vec<&str> = fs.category_names();
    t = push_items(t.str("\"categories\":["), &categories).str("],");
    assert(t@ =~= before + ("\"categories\":["@ + json_items(str_views(categories@), 0) + "],"@));
    assert(str_views(categories@) == distinct_from(
        fs@.tree.tables.block_category_names,
        0,
        Seq::empty(),
    ));
    let ghost before = t@;
    match fs.preferred_path_separator() {
        Some(n) => {
            t = push_member(t, "preferred_path_separator", n as u64);
        },
        None => {
            assert(before + Seq::<char>::empty() =~= before);
        },
    }
    t = push_member(t, "dir_offset", offsets.dir_offset as u64);
    t = push_member(t, "symlink_offset", offsets.symlink_offset as u64);
    t = push_member(t, "file_offset", offsets.file_offset as u64);
    t = push_member(t, "shared_file_offset", offsets.shared_file_offset as u64);
    t = push_member(t, "device_offset", offsets.device_offset as u64);
    t = push_member(t, "special_offset", offsets.special_offset as u64);
    t = push_member(t, "timestamp_base", fs.timestamp_base());
    let ghost before = t@;
    t = push_name_items(t.str("\"options\":["), &options).str("]}\n");
    assert(t@ =~= before + ("\"options\":["@ + name_items(str_views(options@), 0) + "]}\n"@));
    t.done()
}

/// The name of an inode kind.
pub open spec fn kind_text(kind: InodeKind) -> Seq<char> {
    match kind {
        InodeKind::Directory => "directory"@,
        InodeKind::Regular => "regular"@,
        InodeKind::Symlink => "symlink"@,
        InodeKind::BlockDevice => "block-device"@,
        InodeKind::CharDevice => "char-device"@,
        InodeKind::Fifo => "fifo"@,
        InodeKind::Socket => "socket"@,
        InodeKind::Unknown => "unknown"@,
    }
}

fn kind_name(kind: InodeKind) -> (r: &'static str)
    ensures
        r@ == kind_text(kind),
{
    match kind {
        InodeKind::Directory => "directory",
        InodeKind::Regular => "regular",
        InodeKind::Symlink => "symlink",
        InodeKind::BlockDevice => "block-device",
        InodeKind::CharDevice => "char-device",
        InodeKind::Fifo => "fifo",
        InodeKind::Socket => "socket",
        InodeKind::Unknown => "unknown",
    }
}

/// The path of an entry as text, `/` for the root.
pub open spec fn export_path(path: Seq<u8>) -> Seq<char> {
    if path.len() == 0 {
        "/"@
    } else {
        lossy_of(path)
    }
}

/// The member with a symlink's target, where it has one.
pub open spec fn target_member(v: TreeView, stat: Stat) -> Seq<char> {
    if stat.kind == InodeKind::Symlink {
        match v.read_link(stat.inode) {
            Ok(target) => ",\"target\":"@ + json_text(lossy_of(target)),
            Err(_) => Seq::empty(),
        }
    } else {
        Seq::empty()
    }
}

/// The JSON record of an entry, as one line.
pub open spec fn export_text(v: TreeView, entry: WalkView) -> Result<Seq<char>, ErrorView> {
    match v.stat(entry.inode) {
        Err(e) => Err(e),
        Ok(stat) => Ok(
            "{\"inode\":"@ + dec(stat.inode as nat) + ",\"path\":"@ + json_text(
                export_path(entry.path),
            ) + ",\"kind\":\""@ + kind_text(stat.kind) + "\",\"mode\":"@ + dec(stat.mode as nat)
                + ",\"uid\":"@ + dec(stat.uid as nat) + ",\"gid\":"@ + dec(stat.gid as nat)
                + ",\"mtime\":"@ + dec(stat.mtime as nat) + ",\"atime\":"@ + dec(stat.atime as nat)
                + ",\"ctime\":"@ + dec(stat.ctime as nat) + ",\"size\":"@ + dec(stat.size as nat)
                + ",\"nlink\":"@ + dec(stat.nlink as nat) + target_member(v, stat) + "}\n"@,
        ),
    }
}

/// One inode record with kind, mode, owner, times, size, and (for
/// symlinks) target, as one line of JSON.
pub fn export_line(tree: &Tree, entry: &WalkEntry) -> (r: Result<String, Error>)
    ensures
        match r {
            Ok(line) => export_text(tree@, entry@) == Ok::<Seq<char>, ErrorView>(line@),
            Err(e) => export_text(tree@, entry@) == Err::<Seq<char>, ErrorView>(e@),
        },
{
    let stat: Stat = tree.stat(entry.inode)?;
    let path: String = if entry.path.len() == 0 {
        "/".to_owned()
    } else {
        lossy_text(entry.path.as_slice())
    };
    let mut t = Text::of("{\"inode\":").num(stat.inode as u64).str(",\"path\":").str(
        json_string(path.as_str()).as_str(),
    ).str(",\"kind\":\"").str(kind_name(stat.kind)).str("\",\"mode\":").num(stat.mode as u64).str(
        ",\"uid\":",
    ).num(stat.uid as u64).str(",\"gid\":").num(stat.gid as u64).str(",\"mtime\":").num(
        stat.mtime,
    ).str(",\"atime\":").num(stat.atime).str(",\"ctime\":").num(stat.ctime).str(",\"size\":").num(
        stat.size,
    ).str(",\"nlink\":").num(stat.nlink as u64);
    let ghost before = t@;
    assert(before + Seq::<char>::empty() =~= before);
    if stat.kind == InodeKind::Symlink {
        if let Ok(target) = tree.read_link(stat.inode) {
            let quoted: String = json_string(lossy_text(target).as_str());
            t = t.str(",\"target\":").str(quoted.as_str());
            assert(t@ =~= before + (",\"target\":"@ + quoted@));
        }
    }
    assert(t@ == before + target_member(tree@, stat));
    Ok(t.str("}\n").done())
}

} // verus!
