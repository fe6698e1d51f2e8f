//! What the JSON output says, read back.

use crate::cli::details::{flag, option_names, resolution_of};
use crate::cli::json::{
    export_path, export_text, json_items, json_options, json_summary_text, json_text, kind_text,
    member, name_items, optional_member, target_member,
};
use crate::cli::reading::{
    Json, are_plainly_named, body, key_text, lemma_first_member, lemma_last_member,
    lemma_line_reads_back, lemma_member_and_comma, lemma_name_items, lemma_next_member,
    lemma_plain_text, member_text, needs_no_escape, read_line,
};
use crate::error::ErrorView;
use crate::fs::content::{FsView, lemma_file_contents};
use crate::fs::inode::{InodeKind, kind_of_mode};
use crate::fs::records::{lemma_stat_says_what_is_recorded, recorded_mode, recorded_time};
use crate::fs::tree::{Stat, TreeView, distinct_from};
use crate::fs::walk::WalkView;
use crate::metadata::model::FsOptions;
use crate::text::dec;
use crate::utf8::lossy_of;
use vstd::prelude::*;

verus! {

proof fn lemma_record_keys()
    ensures
        "{\"inode\":"@ == seq!['{'] + key_text("inode"@),
        ",\"path\":"@ == seq![','] + key_text("path"@),
        ",\"kind\":\""@ == seq![','] + key_text("kind"@) + seq!['"'],
        "\",\"mode\":"@ == seq!['"', ','] + key_text("mode"@),
        ",\"uid\":"@ == seq![','] + key_text("uid"@),
        ",\"gid\":"@ == seq![','] + key_text("gid"@),
        ",\"mtime\":"@ == seq![','] + key_text("mtime"@),
        ",\"atime\":"@ == seq![','] + key_text("atime"@),
        ",\"ctime\":"@ == seq![','] + key_text("ctime"@),
        ",\"size\":"@ == seq![','] + key_text("size"@),
        ",\"nlink\":"@ == seq![','] + key_text("nlink"@),
        ",\"target\":"@ == seq![','] + key_text("target"@),
        "}\n"@ == seq!['}', '\n'],
{
    assert("{\"inode\":"@ == seq!['{'] + key_text("inode"@)) by {
        reveal_strlit("{\"inode\":");
        reveal_strlit("inode");
        assert("{\"inode\":"@ =~= seq!['{'] + key_text("inode"@));
    }
    assert(",\"path\":"@ == seq![','] + key_text("path"@)) by {
        reveal_strlit(",\"path\":");
        reveal_strlit("path");
        assert(",\"path\":"@ =~= seq![','] + key_text("path"@));
    }
    assert(",\"kind\":\""@ == seq![','] + key_text("kind"@) + seq!['"']) by {
        reveal_strlit(",\"kind\":\"");
        reveal_strlit("kind");
        assert(",\"kind\":\""@ =~= seq![','] + key_text("kind"@) + seq!['"']);
    }
    assert("\",\"mode\":"@ == seq!['"', ','] + key_text("mode"@)) by {
        reveal_strlit("\",\"mode\":");
        reveal_strlit("mode");
        assert("\",\"mode\":"@ =~= seq!['"', ','] + key_text("mode"@));
    }
    assert(",\"uid\":"@ == seq![','] + key_text("uid"@)) by {
        reveal_strlit(",\"uid\":");
        reveal_strlit("uid");
        assert(",\"uid\":"@ =~= seq![','] + key_text("uid"@));
    }
    assert(",\"gid\":"@ == seq![','] + key_text("gid"@)) by {
        reveal_strlit(",\"gid\":");
        reveal_strlit("gid");
        assert(",\"gid\":"@ =~= seq![','] + key_text("gid"@));
    }
    assert(",\"mtime\":"@ == seq![','] + key_text("mtime"@)) by {
        reveal_strlit(",\"mtime\":");
        reveal_strlit("mtime");
        assert(",\"mtime\":"@ =~= seq![','] + key_text("mtime"@));
    }
    assert(",\"atime\":"@ == seq![','] + key_text("atime"@)) by {
        reveal_strlit(",\"atime\":");
        reveal_strlit("atime");
        assert(",\"atime\":"@ =~= seq![','] + key_text("atime"@));
    }
    assert(",\"ctime\":"@ == seq![','] + key_text("ctime"@)) by {
        reveal_strlit(",\"ctime\":");
        reveal_strlit("ctime");
        assert(",\"ctime\":"@ =~= seq![','] + key_text("ctime"@));
    }
    assert(",\"size\":"@ == seq![','] + key_text("size"@)) by {
        reveal_strlit(",\"size\":");
        reveal_strlit("size");
        assert(",\"size\":"@ =~= seq![','] + key_text("size"@));
    }
    assert(",\"nlink\":"@ == seq![','] + key_text("nlink"@)) by {
        reveal_strlit(",\"nlink\":");
        reveal_strlit("nlink");
        assert(",\"nlink\":"@ =~= seq![','] + key_text("nlink"@));
    }
    assert(",\"target\":"@ == seq![','] + key_text("target"@)) by {
        reveal_strlit(",\"target\":");
        reveal_strlit("target");
        assert(",\"target\":"@ =~= seq![','] + key_text("target"@));
    }
    assert("}\n"@ == seq!['}', '\n']) by {
        reveal_strlit("}\n");
        assert("}\n"@ =~= seq!['}', '\n']);
    }
}

proof fn lemma_plain_names()
    ensures
        needs_no_escape("inode"@),
        needs_no_escape("path"@),
        needs_no_escape("kind"@),
        needs_no_escape("mode"@),
        needs_no_escape("uid"@),
        needs_no_escape("gid"@),
        needs_no_escape("mtime"@),
        needs_no_escape("atime"@),
        needs_no_escape("ctime"@),
        needs_no_escape("size"@),
        needs_no_escape("nlink"@),
        needs_no_escape("target"@),
{
    reveal_strlit("inode");
    reveal_strlit("path");
    reveal_strlit("kind");
    reveal_strlit("mode");
    reveal_strlit("uid");
    reveal_strlit("gid");
    reveal_strlit("mtime");
    reveal_strlit("atime");
    reveal_strlit("ctime");
    reveal_strlit("size");
    reveal_strlit("nlink");
    reveal_strlit("target");
}

proof fn lemma_kind_names(kind: InodeKind)
    ensures
        needs_no_escape(kind_text(kind)),
{
    reveal_strlit("directory");
    reveal_strlit("regular");
    reveal_strlit("symlink");
    reveal_strlit("block-device");
    reveal_strlit("char-device");
    reveal_strlit("fifo");
    reveal_strlit("socket");
    reveal_strlit("unknown");
}

/// The members of a record.
#[verifier::opaque]
spec fn record_members(v: TreeView, s: Stat, path: Seq<u8>) -> Seq<(Seq<char>, Json)> {
    let most = seq![
        ("inode"@, Json::Number(s.inode as nat)),
        ("path"@, Json::Text(export_path(path))),
        ("kind"@, Json::Text(kind_text(s.kind))),
        ("mode"@, Json::Number(s.mode as nat)),
        ("uid"@, Json::Number(s.uid as nat)),
        ("gid"@, Json::Number(s.gid as nat)),
        ("mtime"@, Json::Number(s.mtime as nat)),
        ("atime"@, Json::Number(s.atime as nat)),
        ("ctime"@, Json::Number(s.ctime as nat)),
        ("size"@, Json::Number(s.size as nat)),
        ("nlink"@, Json::Number(s.nlink as nat)),
    ];
    if s.kind == InodeKind::Symlink && v.read_link(s.inode) is Ok {
        most.push(("target"@, Json::Text(lossy_of(v.read_link(s.inode)->Ok_0))))
    } else {
        most
    }
}

/// The first members of a record.
spec fn leading_members(s: Stat, path: Seq<u8>) -> Seq<(Seq<char>, Json)> {
    seq![("inode"@, Json::Number(s.inode as nat))].push(
        ("path"@, Json::Text(export_path(path))),
    ).push(("kind"@, Json::Text(kind_text(s.kind)))).push(("mode"@, Json::Number(s.mode as nat)))
}

proof fn lemma_leading_members(s: Stat, path: Seq<u8>)
    ensures
        "{\"inode\":"@ + dec(s.inode as nat) + ",\"path\":"@ + json_text(export_path(path))
            + ",\"kind\":\""@ + kind_text(s.kind) + "\",\"mode\":"@ + dec(s.mode as nat)
            == seq!['{'] + body(leading_members(s, path)),
{
    let text = export_path(path);
    let kind = kind_text(s.kind);
    lemma_record_keys();
    lemma_kind_names(s.kind);
    lemma_plain_text(kind);
    let m0 = seq![("inode"@, Json::Number(s.inode as nat))];
    let t0 = "{\"inode\":"@ + dec(s.inode as nat);
    lemma_first_member("{\"inode\":"@, ("inode"@, Json::Number(s.inode as nat)));
    let m1 = m0.push(("path"@, Json::Text(text)));
    let t1 = t0 + ",\"path\":"@ + json_text(text);
    lemma_next_member(t0, m0, ",\"path\":"@, ("path"@, Json::Text(text)));
    let m2 = m1.push(("kind"@, Json::Text(kind)));
    let t2 = t1 + (seq![','] + key_text("kind"@)) + json_text(kind);
    lemma_next_member(t1, m1, seq![','] + key_text("kind"@), ("kind"@, Json::Text(kind)));
    let t3 = t2 + (seq![','] + key_text("mode"@)) + dec(s.mode as nat);
    lemma_next_member(
        t2,
        m2,
        seq![','] + key_text("mode"@),
        ("mode"@, Json::Number(s.mode as nat)),
    );
    assert(t1 + ",\"kind\":\""@ + kind + "\",\"mode\":"@ + dec(s.mode as nat) =~= t3);
}

/// The members that every record has.
spec fn common_members(s: Stat, path: Seq<u8>) -> Seq<(Seq<char>, Json)> {
    leading_members(s, path).push(
        ("uid"@, Json::Number(s.uid as nat)),
    ).push(
        ("gid"@, Json::Number(s.gid as nat)),
    ).push(
        ("mtime"@, Json::Number(s.mtime as nat)),
    ).push(
        ("atime"@, Json::Number(s.atime as nat)),
    ).push(
        ("ctime"@, Json::Number(s.ctime as nat)),
    ).push(
        ("size"@, Json::Number(s.size as nat)),
    ).push(
        ("nlink"@, Json::Number(s.nlink as nat)),
    )
}

proof fn lemma_common_members(before: Seq<char>, s: Stat, path: Seq<u8>)
    requires
        before == seq!['{'] + body(leading_members(s, path)),
    ensures
        before + ",\"uid\":"@ + dec(s.uid as nat) + ",\"gid\":"@ + dec(s.gid as nat)
            + ",\"mtime\":"@ + dec(s.mtime as nat) + ",\"atime\":"@ + dec(s.atime as nat)
            + ",\"ctime\":"@ + dec(s.ctime as nat) + ",\"size\":"@ + dec(s.size as nat)
            + ",\"nlink\":"@ + dec(s.nlink as nat) == seq!['{'] + body(common_members(s, path)),
{
    lemma_record_keys();
    let m3 = leading_members(s, path);
    let t3 = before;
    let m4 = m3.push(("uid"@, Json::Number(s.uid as nat)));
    let t4 = t3 + ",\"uid\":"@ + dec(s.uid as nat);
    lemma_next_member(t3, m3, ",\"uid\":"@, ("uid"@, Json::Number(s.uid as nat)));
    let m5 = m4.push(("gid"@, Json::Number(s.gid as nat)));
    let t5 = t4 + ",\"gid\":"@ + dec(s.gid as nat);
    lemma_next_member(t4, m4, ",\"gid\":"@, ("gid"@, Json::Number(s.gid as nat)));
    let m6 = m5.push(("mtime"@, Json::Number(s.mtime as nat)));
    let t6 = t5 + ",\"mtime\":"@ + dec(s.mtime as nat);
    lemma_next_member(t5, m5, ",\"mtime\":"@, ("mtime"@, Json::Number(s.mtime as nat)));
    let m7 = m6.push(("atime"@, Json::Number(s.atime as nat)));
    let t7 = t6 + ",\"atime\":"@ + dec(s.atime as nat);
    lemma_next_member(t6, m6, ",\"atime\":"@, ("atime"@, Json::Number(s.atime as nat)));
    let m8 = m7.push(("ctime"@, Json::Number(s.ctime as nat)));
    let t8 = t7 + ",\"ctime\":"@ + dec(s.ctime as nat);
    lemma_next_member(t7, m7, ",\"ctime\":"@, ("ctime"@, Json::Number(s.ctime as nat)));
    let m9 = m8.push(("size"@, Json::Number(s.size as nat)));
    let t9 = t8 + ",\"size\":"@ + dec(s.size as nat);
    lemma_next_member(t8, m8, ",\"size\":"@, ("size"@, Json::Number(s.size as nat)));
    let m10 = m9.push(("nlink"@, Json::Number(s.nlink as nat)));
    let t10 = t9 + ",\"nlink\":"@ + dec(s.nlink as nat);
    lemma_next_member(t9, m9, ",\"nlink\":"@, ("nlink"@, Json::Number(s.nlink as nat)));
}

proof fn lemma_record_names(v: TreeView, s: Stat, path: Seq<u8>)
    ensures
        forall|j: int|
            0 <= j < record_members(v, s, path).len() ==> needs_no_escape(
                (#[trigger] record_members(v, s, path)[j]).0,
            ),
{
    lemma_plain_names();
    lemma_record_places(v, s, path);
}

proof fn lemma_record_is_its_members(v: TreeView, entry: WalkView)
    requires
        v.stat(entry.inode) is Ok,
    ensures
        export_text(v, entry) matches Ok(line) && read_line(line) == Some(
            record_members(v, v.stat(entry.inode)->Ok_0, entry.path),
        ),
{
    let s = v.stat(entry.inode)->Ok_0;
    let members = record_members(v, s, entry.path);
    let line = export_text(v, entry)->Ok_0;
    lemma_leading_members(s, entry.path);
    lemma_common_members(seq!['{'] + body(leading_members(s, entry.path)), s, entry.path);
    let common = common_members(s, entry.path);
    let so_far = seq!['{'] + body(common);
    assert(line == so_far + target_member(v, s) + "}\n"@);
    lemma_line_ends(v, s, entry.path, so_far);
    lemma_record_names(v, s, entry.path);
    lemma_line_reads_back(line, members);
}

proof fn lemma_line_ends(v: TreeView, s: Stat, path: Seq<u8>, so_far: Seq<char>)
    requires
        so_far == seq!['{'] + body(common_members(s, path)),
    ensures
        so_far + target_member(v, s) + "}\n"@ == seq!['{'] + body(record_members(v, s, path))
            + seq!['}', '\n'],
{
    reveal(record_members);
    lemma_record_keys();
    let common = common_members(s, path);
    let members = record_members(v, s, path);
    if s.kind == InodeKind::Symlink && v.read_link(s.inode) is Ok {
        let target = lossy_of(v.read_link(s.inode)->Ok_0);
        lemma_next_member(so_far, common, ",\"target\":"@, ("target"@, Json::Text(target)));
        assert(members =~= common.push(("target"@, Json::Text(target))));
        assert(so_far + (",\"target\":"@ + json_text(target)) =~= so_far + ",\"target\":"@
            + json_text(target));
    } else {
        assert(members =~= common);
        assert(so_far + Seq::<char>::empty() =~= so_far);
    }
}

proof fn lemma_record_places(v: TreeView, s: Stat, path: Seq<u8>)
    ensures
        ({
            let r = record_members(v, s, path);
            &&& r[0] == ("inode"@, Json::Number(s.inode as nat))
            &&& r[1] == ("path"@, Json::Text(export_path(path)))
            &&& r[2] == ("kind"@, Json::Text(kind_text(s.kind)))
            &&& r[3] == ("mode"@, Json::Number(s.mode as nat))
            &&& r[4] == ("uid"@, Json::Number(s.uid as nat))
            &&& r[5] == ("gid"@, Json::Number(s.gid as nat))
            &&& r[6] == ("mtime"@, Json::Number(s.mtime as nat))
            &&& r[7] == ("atime"@, Json::Number(s.atime as nat))
            &&& r[8] == ("ctime"@, Json::Number(s.ctime as nat))
            &&& r[9] == ("size"@, Json::Number(s.size as nat))
            &&& r[10] == ("nlink"@, Json::Number(s.nlink as nat))
            &&& if s.kind == InodeKind::Symlink && v.read_link(s.inode) is Ok {
                r.len() == 12 && r[11] == (
                    "target"@,
                    Json::Text(lossy_of(v.read_link(s.inode)->Ok_0)),
                )
            } else {
                r.len() == 11
            }
        }),
{
    reveal(record_members);
}

/// The record of an entry is one line that reads as a JSON object. Its
/// members are, in order, the inode, the path, the kind, the mode, the
/// owner, the group, the times, the size and the links that the tables
/// record for the entry's inode, and a symlink's target where it has one.
pub proof fn lemma_record_reads_as_the_inode(v: TreeView, entry: WalkView)
    requires
        export_text(v, entry) is Ok,
    ensures
        ({
            let info = v.tables.inodes[entry.inode as int];
            let kind = kind_of_mode(recorded_mode(v, entry.inode));
            read_line(export_text(v, entry)->Ok_0) matches Some(record) && {
                &&& record[0] == ("inode"@, Json::Number(entry.inode as nat))
                &&& record[1].0 == "path"@
                &&& entry.path.len() == 0 ==> record[1].1 == Json::Text("/"@)
                &&& entry.path.len() > 0 ==> record[1].1 == Json::Text(lossy_of(entry.path))
                &&& record[2].0 == "kind"@
    &&& kind == InodeKind::Directory ==> record[2].1 == Json::Text("directory"@)
                &&& kind == InodeKind::Regular ==> record[2].1 == Json::Text("regular"@)
                &&& kind == InodeKind::Symlink ==> record[2].1 == Json::Text("symlink"@)
                &&& kind == InodeKind::BlockDevice ==> record[2].1 == Json::Text("block-device"@)
                &&& kind == InodeKind::CharDevice ==> record[2].1 == Json::Text("char-device"@)
                &&& kind == InodeKind::Fifo ==> record[2].1 == Json::Text("fifo"@)
                &&& kind == InodeKind::Socket ==> record[2].1 == Json::Text("socket"@)
                &&& kind == InodeKind::Unknown ==> record[2].1 == Json::Text("unknown"@)
                &&& record[3] == ("mode"@, Json::Number(recorded_mode(v, entry.inode) as nat))
                &&& record[4] == (
                    "uid"@,
                    Json::Number(v.tables.uids[info.owner_index as int] as nat),
                )
                &&& record[5] == (
                    "gid"@,
                    Json::Number(v.tables.gids[info.group_index as int] as nat),
                )
                &&& record[6] == (
                    "mtime"@,
                    Json::Number(recorded_time(v, info.mtime_offset) as nat),
                )
                &&& record[7].0 == "atime"@
                &&& record[8].0 == "ctime"@
                &&& v.tables.options.mtime_only ==> record[7].1 == record[6].1 && record[8].1
                    == record[6].1
                &&& !v.tables.options.mtime_only ==> record[7].1 == Json::Number(
                    recorded_time(v, info.atime_offset) as nat,
                ) && record[8].1 == Json::Number(recorded_time(v, info.ctime_offset) as nat)
                &&& v.file_size(entry.inode) is Ok
                &&& record[9] == (
                    "size"@,
                    Json::Number(v.file_size(entry.inode)->Ok_0 as nat),
                )
                &&& record[10].0 == "nlink"@
                &&& !v.tables.options.inodes_have_nlink ==> record[10].1 == Json::Number(1)
                &&& v.tables.options.inodes_have_nlink && info.nlink_minus_one < u32::MAX
                    ==> record[10].1 == Json::Number((info.nlink_minus_one + 1) as nat)
                &&& if kind == InodeKind::Symlink && v.read_link(entry.inode) is Ok {
                    record.len() == 12 && record[11] == (
                        "target"@,
                        Json::Text(lossy_of(v.read_link(entry.inode)->Ok_0)),
                    )
                } else {
                    record.len() == 11
                }
            }
        }),
{
    let s = v.stat(entry.inode)->Ok_0;
    lemma_record_is_its_members(v, entry);
    lemma_record_places(v, s, entry.path);
    lemma_stat_says_what_is_recorded(v, entry.inode);
}

/// The size in the record of a regular file is the number of bytes that
/// reading the whole file gives.
pub proof fn lemma_record_size_is_the_length(v: FsView, entry: WalkView)
    requires
        v.tree.consistent(),
        export_text(v.tree, entry) is Ok,
        v.tree.kind(entry.inode) == Ok::<InodeKind, ErrorView>(InodeKind::Regular),
        v.read_file(entry.inode) is Ok,
    ensures
        read_line(export_text(v.tree, entry)->Ok_0) matches Some(record) && record[9] == (
            "size"@,
            Json::Number(v.read_file(entry.inode)->Ok_0.len()),
        ),
{
    lemma_record_reads_as_the_inode(v.tree, entry);
    lemma_file_contents(v, entry.inode, 0, 0);
}

proof fn lemma_plain_summary_names()
    ensures
        needs_no_escape("block_size"@),
        needs_no_escape("inode_count"@),
        needs_no_escape("total_fs_size"@),
        needs_no_escape("total_allocated_fs_size"@),
        needs_no_escape("time_resolution_sec"@),
        needs_no_escape("features"@),
        needs_no_escape("categories"@),
        needs_no_escape("preferred_path_separator"@),
        needs_no_escape("dir_offset"@),
        needs_no_escape("symlink_offset"@),
        needs_no_escape("file_offset"@),
        needs_no_escape("shared_file_offset"@),
        needs_no_escape("device_offset"@),
        needs_no_escape("special_offset"@),
        needs_no_escape("timestamp_base"@),
        needs_no_escape("options"@),
{
    reveal_strlit("block_size");
    reveal_strlit("inode_count");
    reveal_strlit("total_fs_size");
    reveal_strlit("total_allocated_fs_size");
    reveal_strlit("time_resolution_sec");
    reveal_strlit("features");
    reveal_strlit("categories");
    reveal_strlit("preferred_path_separator");
    reveal_strlit("dir_offset");
    reveal_strlit("symlink_offset");
    reveal_strlit("file_offset");
    reveal_strlit("shared_file_offset");
    reveal_strlit("device_offset");
    reveal_strlit("special_offset");
    reveal_strlit("timestamp_base");
    reveal_strlit("options");
}

proof fn lemma_plain_option_names()
    ensures
        needs_no_escape("packed_chunk_table"@),
        needs_no_escape("packed_directories"@),
        needs_no_escape("packed_shared_files_table"@),
        needs_no_escape("inodes_have_nlink"@),
        needs_no_escape("has_btime"@),
        needs_no_escape("mtime_only"@),
{
    reveal_strlit("packed_chunk_table");
    reveal_strlit("packed_directories");
    reveal_strlit("packed_shared_files_table");
    reveal_strlit("inodes_have_nlink");
    reveal_strlit("has_btime");
    reveal_strlit("mtime_only");
}

proof fn lemma_number_member(name: Seq<char>, n: nat)
    ensures
        member(name, n) == member_text((name, Json::Number(n))) + seq![','],
{
    reveal_strlit("\"");
    reveal_strlit("\":");
    reveal_strlit(",");
    assert(member(name, n) =~= member_text((name, Json::Number(n))) + seq![',']);
}

proof fn lemma_list_members(features: Seq<Seq<char>>, categories: Seq<Seq<char>>, names: Seq<
    Seq<char>,
>)
    requires
        forall|i: int| 0 <= i < names.len() ==> needs_no_escape(#[trigger] names[i]),
    ensures
        "\"features\":["@ + json_items(features, 0) + "],"@ == member_text(
            ("features"@, Json::Texts(features)),
        ) + seq![','],
        "\"categories\":["@ + json_items(categories, 0) + "],"@ == member_text(
            ("categories"@, Json::Texts(categories)),
        ) + seq![','],
        "\"options\":["@ + name_items(names, 0) + "]}\n"@ == member_text(
            ("options"@, Json::Texts(names)),
        ) + seq!['}', '\n'],
{
    lemma_name_items(names, 0);
    assert("\"features\":["@ =~= key_text("features"@) + seq!['[']) by {
        reveal_strlit("\"features\":[");
        reveal_strlit("features");
    }
    assert("\"categories\":["@ =~= key_text("categories"@) + seq!['[']) by {
        reveal_strlit("\"categories\":[");
        reveal_strlit("categories");
    }
    assert("\"options\":["@ =~= key_text("options"@) + seq!['[']) by {
        reveal_strlit("\"options\":[");
        reveal_strlit("options");
    }
    assert("],"@ =~= seq![']', ',']) by {
        reveal_strlit("],");
    }
    assert("]}\n"@ =~= seq![']', '}', '\n']) by {
        reveal_strlit("]}\n");
    }
    assert("\"features\":["@ + json_items(features, 0) + "],"@ =~= member_text(
        ("features"@, Json::Texts(features)),
    ) + seq![',']);
    assert("\"categories\":["@ + json_items(categories, 0) + "],"@ =~= member_text(
        ("categories"@, Json::Texts(categories)),
    ) + seq![',']);
    assert("\"options\":["@ + json_items(names, 0) + "]}\n"@ =~= member_text(
        ("options"@, Json::Texts(names)),
    ) + seq!['}', '\n']);
}

proof fn lemma_flags(o: FsOptions)
    ensures
        forall|i: int|
            0 <= i < json_options(o).len() ==> needs_no_escape(#[trigger] json_options(o)[i]),
{
    lemma_plain_option_names();
}

/// Whether a text so far holds the members so far, a comma behind them.
#[verifier::opaque]
spec fn holds(text: Seq<char>, members: Seq<(Seq<char>, Json)>) -> bool {
    &&& text == seq!['{'] + body(members) + (if members.len() > 0 {
        seq![',']
    } else {
        Seq::empty()
    })
    &&& are_plainly_named(members)
}

proof fn lemma_holds_more(
    text: Seq<char>,
    members: Seq<(Seq<char>, Json)>,
    m: (Seq<char>, Json),
    more: Seq<char>,
)
    requires
        holds(text, members),
        more == member_text(m) + seq![','],
        needs_no_escape(m.0),
    ensures
        holds(text + more, members.push(m)),
{
    reveal(holds);
    lemma_member_and_comma(text, members, m, more);
}

proof fn lemma_holds_number(
    text: Seq<char>,
    members: Seq<(Seq<char>, Json)>,
    name: Seq<char>,
    n: nat,
)
    requires
        holds(text, members),
        needs_no_escape(name),
    ensures
        holds(text + member(name, n), members.push((name, Json::Number(n)))),
{
    lemma_number_member(name, n);
    lemma_holds_more(text, members, (name, Json::Number(n)), member(name, n));
}

proof fn lemma_holds_optional(
    text: Seq<char>,
    members: Seq<(Seq<char>, Json)>,
    name: Seq<char>,
    n: Option<nat>,
)
    requires
        holds(text, members),
        needs_no_escape(name),
    ensures
        holds(
            text + optional_member(name, n),
            match n {
                Some(n) => members.push((name, Json::Number(n))),
                None => members,
            },
        ),
{
    match n {
        Some(n) => lemma_holds_number(text, members, name, n),
        None => assert(text + Seq::<char>::empty() =~= text),
    }
}

/// A number as the only member of a list, where there is one.
pub open spec fn at_most_one(name: Seq<char>, n: Option<nat>) -> Seq<(Seq<char>, Json)> {
    match n {
        Some(n) => seq![(name, Json::Number(n))],
        None => Seq::empty(),
    }
}

/// The front half of a summary.
spec fn front_text(v: TreeView) -> Seq<char> {
    let t = v.tables;
    let categories = distinct_from(t.block_category_names, 0, Seq::empty());
    let allocated: Option<nat> = match t.total_allocated_fs_size {
        Some(n) => Some(n as nat),
        None => None,
    };
    let separator: Option<nat> = match t.preferred_path_separator {
        Some(n) => Some(n as nat),
        None => None,
    };
    let t1 = "{"@ + member("block_size"@, t.block_size as nat);
    let t2 = t1 + member("inode_count"@, t.inodes.len());
    let t3 = t2 + member("total_fs_size"@, t.total_fs_size as nat);
    let t4 = t3 + optional_member("total_allocated_fs_size"@, allocated);
    let t5 = t4 + member("time_resolution_sec"@, resolution_of(t.options) as nat);
    let t6 = t5 + ("\"features\":["@ + json_items(t.features, 0) + "],"@);
    let t7 = t6 + ("\"categories\":["@ + json_items(categories, 0) + "],"@);
    let t8 = t7 + optional_member("preferred_path_separator"@, separator);
    t8
}

/// The members in the front half of a summary.
spec fn front_members(v: TreeView) -> Seq<(Seq<char>, Json)> {
    let t = v.tables;
    let none = Seq::<(Seq<char>, Json)>::empty();
    let categories = distinct_from(t.block_category_names, 0, Seq::empty());
    let allocated: Option<nat> = match t.total_allocated_fs_size {
        Some(n) => Some(n as nat),
        None => None,
    };
    let separator: Option<nat> = match t.preferred_path_separator {
        Some(n) => Some(n as nat),
        None => None,
    };
    let m1 = none.push(("block_size"@, Json::Number(t.block_size as nat)));
    let m2 = m1.push(("inode_count"@, Json::Number(t.inodes.len())));
    let m3 = m2.push(("total_fs_size"@, Json::Number(t.total_fs_size as nat)));
    let m4 = match allocated {
        Some(n) => m3.push(("total_allocated_fs_size"@, Json::Number(n))),
        None => m3,
    };
    let m5 = m4.push(("time_resolution_sec"@, Json::Number(resolution_of(t.options) as nat)));
    let m6 = m5.push(("features"@, Json::Texts(t.features)));
    let m7 = m6.push(("categories"@, Json::Texts(categories)));
    let m8 = match separator {
        Some(n) => m7.push(("preferred_path_separator"@, Json::Number(n))),
        None => m7,
    };
    m8
}

proof fn lemma_front_holds(v: TreeView)
    ensures
        holds(front_text(v), front_members(v)),
{
    let t = v.tables;
    let none = Seq::<(Seq<char>, Json)>::empty();
    let categories = distinct_from(t.block_category_names, 0, Seq::empty());
    let allocated: Option<nat> = match t.total_allocated_fs_size {
        Some(n) => Some(n as nat),
        None => None,
    };
    let separator: Option<nat> = match t.preferred_path_separator {
        Some(n) => Some(n as nat),
        None => None,
    };
    lemma_plain_summary_names();
    lemma_list_members(t.features, categories, Seq::empty());
    assert(holds("{"@, none)) by {
        reveal(holds);
        reveal_with_fuel(body, 1);
        reveal_strlit("{");
        assert("{"@ =~= seq!['{'] + body(none) + Seq::<char>::empty());
    }
    let t1 = "{"@ + member("block_size"@, t.block_size as nat);
    let m1 = none.push(("block_size"@, Json::Number(t.block_size as nat)));
    lemma_holds_number("{"@, none, "block_size"@, t.block_size as nat);
    let t2 = t1 + member("inode_count"@, t.inodes.len());
    let m2 = m1.push(("inode_count"@, Json::Number(t.inodes.len())));
    lemma_holds_number(t1, m1, "inode_count"@, t.inodes.len());
    let t3 = t2 + member("total_fs_size"@, t.total_fs_size as nat);
    let m3 = m2.push(("total_fs_size"@, Json::Number(t.total_fs_size as nat)));
    lemma_holds_number(t2, m2, "total_fs_size"@, t.total_fs_size as nat);
    let t4 = t3 + optional_member("total_allocated_fs_size"@, allocated);
    let m4 = match allocated {
        Some(n) => m3.push(("total_allocated_fs_size"@, Json::Number(n))),
        None => m3,
    };
    lemma_holds_optional(t3, m3, "total_allocated_fs_size"@, allocated);
    let t5 = t4 + member("time_resolution_sec"@, resolution_of(t.options) as nat);
    let m5 = m4.push(("time_resolution_sec"@, Json::Number(resolution_of(t.options) as nat)));
    lemma_holds_number(t4, m4, "time_resolution_sec"@, resolution_of(t.options) as nat);
    let t6 = t5 + ("\"features\":["@ + json_items(t.features, 0) + "],"@);
    let m6 = m5.push(("features"@, Json::Texts(t.features)));
    lemma_holds_more(
        t5,
        m5,
        ("features"@, Json::Texts(t.features)),
        "\"features\":["@ + json_items(t.features, 0) + "],"@,
    );
    let t7 = t6 + ("\"categories\":["@ + json_items(categories, 0) + "],"@);
    let m7 = m6.push(("categories"@, Json::Texts(categories)));
    lemma_holds_more(
        t6,
        m6,
        ("categories"@, Json::Texts(categories)),
        "\"categories\":["@ + json_items(categories, 0) + "],"@,
    );
    let t8 = t7 + optional_member("preferred_path_separator"@, separator);
    let m8 = match separator {
        Some(n) => m7.push(("preferred_path_separator"@, Json::Number(n))),
        None => m7,
    };
    lemma_holds_optional(t7, m7, "preferred_path_separator"@, separator);
}

/// The members of a summary.
#[verifier::opaque]
spec fn summary_members(v: TreeView) -> Seq<(Seq<char>, Json)> {
    let t = v.tables;
    let o = v.offsets;
    let m8 = front_members(v);
    let m9 = m8.push(("dir_offset"@, Json::Number(o.dir_offset as nat)));
    let m10 = m9.push(("symlink_offset"@, Json::Number(o.symlink_offset as nat)));
    let m11 = m10.push(("file_offset"@, Json::Number(o.file_offset as nat)));
    let m12 = m11.push(("shared_file_offset"@, Json::Number(o.shared_file_offset as nat)));
    let m13 = m12.push(("device_offset"@, Json::Number(o.device_offset as nat)));
    let m14 = m13.push(("special_offset"@, Json::Number(o.special_offset as nat)));
    let m15 = m14.push(("timestamp_base"@, Json::Number(t.timestamp_base as nat)));
    m15.push(("options"@, Json::Texts(json_options(t.options))))
}

proof fn lemma_summary_is_its_members(v: TreeView)
    ensures
        read_line(json_summary_text(v)) == Some(summary_members(v)),
{
    let t = v.tables;
    let o = v.offsets;
    let t8 = front_text(v);
    let m8 = front_members(v);
    reveal(summary_members);
    lemma_front_holds(v);
    lemma_plain_summary_names();
    let t9 = t8 + member("dir_offset"@, o.dir_offset as nat);
    let m9 = m8.push(("dir_offset"@, Json::Number(o.dir_offset as nat)));
    lemma_holds_number(t8, m8, "dir_offset"@, o.dir_offset as nat);
    let t10 = t9 + member("symlink_offset"@, o.symlink_offset as nat);
    let m10 = m9.push(("symlink_offset"@, Json::Number(o.symlink_offset as nat)));
    lemma_holds_number(t9, m9, "symlink_offset"@, o.symlink_offset as nat);
    let t11 = t10 + member("file_offset"@, o.file_offset as nat);
    let m11 = m10.push(("file_offset"@, Json::Number(o.file_offset as nat)));
    lemma_holds_number(t10, m10, "file_offset"@, o.file_offset as nat);
    let t12 = t11 + member("shared_file_offset"@, o.shared_file_offset as nat);
    let m12 = m11.push(("shared_file_offset"@, Json::Number(o.shared_file_offset as nat)));
    lemma_holds_number(t11, m11, "shared_file_offset"@, o.shared_file_offset as nat);
    let t13 = t12 + member("device_offset"@, o.device_offset as nat);
    let m13 = m12.push(("device_offset"@, Json::Number(o.device_offset as nat)));
    lemma_holds_number(t12, m12, "device_offset"@, o.device_offset as nat);
    let t14 = t13 + member("special_offset"@, o.special_offset as nat);
    let m14 = m13.push(("special_offset"@, Json::Number(o.special_offset as nat)));
    lemma_holds_number(t13, m13, "special_offset"@, o.special_offset as nat);
    let t15 = t14 + member("timestamp_base"@, t.timestamp_base as nat);
    let m15 = m14.push(("timestamp_base"@, Json::Number(t.timestamp_base as nat)));
    lemma_holds_number(t14, m14, "timestamp_base"@, t.timestamp_base as nat);
    let last = "\"options\":["@ + name_items(json_options(t.options), 0) + "]}\n"@;
    let members = summary_members(v);
    assert(json_summary_text(v) == t15 + last);
    lemma_flags(t.options);
    lemma_list_members(Seq::empty(), Seq::empty(), json_options(t.options));
    assert(json_summary_text(v) == seq!['{'] + body(members) + seq!['}', '\n']
        && are_plainly_named(members)) by {
        reveal(holds);
        lemma_last_member(t15, m15, ("options"@, Json::Texts(json_options(t.options))), last);
    }
    lemma_line_reads_back(json_summary_text(v), members);
}

/// The members of a summary as the tables and the partitions of the inodes
/// record them.
#[verifier::opaque]
pub open spec fn recorded_summary(v: TreeView) -> Seq<(Seq<char>, Json)> {
    let t = v.tables;
    let o = v.offsets;
    seq![
                    ("block_size"@, Json::Number(t.block_size as nat)),
                    ("inode_count"@, Json::Number(t.inodes.len())),
                    ("total_fs_size"@, Json::Number(t.total_fs_size as nat)),
                ] + at_most_one(
                    "total_allocated_fs_size"@,
                    match t.total_allocated_fs_size {
                        Some(n) => Some(n as nat),
                        None => None,
                    },
                ) + seq![
                    (
                        "time_resolution_sec"@,
                        Json::Number(
                            match t.options.time_resolution_sec {
                                Some(n) => n as nat,
                                None => 1,
                            },
                        ),
                    ),
                    ("features"@, Json::Texts(t.features)),
                    (
                        "categories"@,
                        Json::Texts(distinct_from(t.block_category_names, 0, Seq::empty())),
                    ),
                ] + at_most_one(
                    "preferred_path_separator"@,
                    match t.preferred_path_separator {
                        Some(n) => Some(n as nat),
                        None => None,
                    },
                ) + seq![
                    ("dir_offset"@, Json::Number(o.dir_offset as nat)),
                    ("symlink_offset"@, Json::Number(o.symlink_offset as nat)),
                    ("file_offset"@, Json::Number(o.file_offset as nat)),
                    ("shared_file_offset"@, Json::Number(o.shared_file_offset as nat)),
                    ("device_offset"@, Json::Number(o.device_offset as nat)),
                    ("special_offset"@, Json::Number(o.special_offset as nat)),
                    ("timestamp_base"@, Json::Number(t.timestamp_base as nat)),
                    ("options"@, Json::Texts(json_options(t.options))),
                ]
}

/// The summary of an image is one line that reads as a JSON object. Its
/// members are, in order, the numbers and the names that the tables and
/// the partitions of the inodes record.
pub proof fn lemma_summary_reads_as_the_tables(v: TreeView)
    ensures
        read_line(json_summary_text(v)) == Some(recorded_summary(v)),
{
    lemma_summary_is_its_members(v);
    lemma_summary_in_order(v);
}

proof fn lemma_summary_in_order(v: TreeView)
    ensures
        summary_members(v) == recorded_summary(v),
{
    reveal(summary_members);
    reveal(recorded_summary);
    assert(summary_members(v) =~= recorded_summary(v));
}

proof fn lemma_flag(names: Seq<Seq<char>>, on: bool, name: Seq<char>)
    ensures
        forall|x: Seq<char>| #[trigger]
            flag(names, on, name).contains(x) <==> names.contains(x) || (on && x == name),
{
    assert forall|x: Seq<char>| #[trigger]
        flag(names, on, name).contains(x) <==> names.contains(x) || (on && x == name) by {
        if on {
            let more = names.push(name);
            if names.contains(x) {
                assert(more[names.index_of(x)] == x);
            }
            if x == name {
                assert(more[names.len() as int] == x);
            }
        }
    }
}

proof fn lemma_option_names_differ()
    ensures
        "packed_chunk_table"@ != "packed_directories"@,
        "packed_chunk_table"@ != "packed_shared_files_table"@,
        "packed_chunk_table"@ != "inodes_have_nlink"@,
        "packed_chunk_table"@ != "has_btime"@,
        "packed_chunk_table"@ != "mtime_only"@,
        "packed_directories"@ != "packed_shared_files_table"@,
        "packed_directories"@ != "inodes_have_nlink"@,
        "packed_directories"@ != "has_btime"@,
        "packed_directories"@ != "mtime_only"@,
        "packed_shared_files_table"@ != "inodes_have_nlink"@,
        "packed_shared_files_table"@ != "has_btime"@,
        "packed_shared_files_table"@ != "mtime_only"@,
        "inodes_have_nlink"@ != "has_btime"@,
        "inodes_have_nlink"@ != "mtime_only"@,
        "has_btime"@ != "mtime_only"@,
{
    reveal_strlit("packed_chunk_table");
    reveal_strlit("packed_directories");
    reveal_strlit("packed_shared_files_table");
    reveal_strlit("inodes_have_nlink");
    reveal_strlit("has_btime");
    reveal_strlit("mtime_only");
    assert("packed_chunk_table"@.len() == 18);
    assert("packed_directories"@.len() == 18);
    assert("packed_shared_files_table"@.len() == 25);
    assert("inodes_have_nlink"@.len() == 17);
    assert("has_btime"@.len() == 9);
    assert("mtime_only"@.len() == 10);
    assert("packed_chunk_table"@[7] != "packed_directories"@[7]);
}

/// The options that the JSON summary and the report name are exactly those
/// that are set.
pub proof fn lemma_named_options_are_set(o: FsOptions)
    ensures
        json_options(o).contains("packed_chunk_table"@) <==> o.packed_chunk_table,
        json_options(o).contains("packed_directories"@) <==> o.packed_directories,
        json_options(o).contains("packed_shared_files_table"@) <==> o.packed_shared_files_table,
        json_options(o).contains("inodes_have_nlink"@) <==> o.inodes_have_nlink,
        json_options(o).contains("has_btime"@) <==> o.has_btime,
        json_options(o).contains("mtime_only"@) <==> o.mtime_only,
        forall|x: Seq<char>| #[trigger]
            json_options(o).contains(x) ==> x == "packed_chunk_table"@ || x == "packed_directories"@
                || x == "packed_shared_files_table"@ || x == "inodes_have_nlink"@ || x
                == "has_btime"@ || x == "mtime_only"@,
        option_names(o).contains("packed_chunk_table"@) <==> o.packed_chunk_table,
        option_names(o).contains("packed_directories"@) <==> o.packed_directories,
        option_names(o).contains("packed_shared_files_table"@) <==> o.packed_shared_files_table,
        option_names(o).contains("inodes_have_nlink"@) <==> o.inodes_have_nlink,
        option_names(o).contains("has_btime"@) <==> o.has_btime,
        option_names(o).contains("mtime_only"@) <==> o.mtime_only,
        forall|x: Seq<char>| #[trigger]
            option_names(o).contains(x) ==> x == "packed_chunk_table"@ || x == "packed_directories"@
                || x == "packed_shared_files_table"@ || x == "inodes_have_nlink"@ || x
                == "has_btime"@ || x == "mtime_only"@,
{
    lemma_option_names_differ();
    let none = Seq::<Seq<char>>::empty();
    let a0 = flag(none, o.packed_chunk_table, "packed_chunk_table"@);
    lemma_flag(none, o.packed_chunk_table, "packed_chunk_table"@);
    let a1 = flag(a0, o.packed_directories, "packed_directories"@);
    lemma_flag(a0, o.packed_directories, "packed_directories"@);
    let a2 = flag(a1, o.packed_shared_files_table, "packed_shared_files_table"@);
    lemma_flag(a1, o.packed_shared_files_table, "packed_shared_files_table"@);
    let a3 = flag(a2, o.inodes_have_nlink, "inodes_have_nlink"@);
    lemma_flag(a2, o.inodes_have_nlink, "inodes_have_nlink"@);
    let a4 = flag(a3, o.has_btime, "has_btime"@);
    lemma_flag(a3, o.has_btime, "has_btime"@);
    let a5 = flag(a4, o.mtime_only, "mtime_only"@);
    lemma_flag(a4, o.mtime_only, "mtime_only"@);
    let b0 = flag(none, o.mtime_only, "mtime_only"@);
    lemma_flag(none, o.mtime_only, "mtime_only"@);
    let b1 = flag(b0, o.packed_chunk_table, "packed_chunk_table"@);
    lemma_flag(b0, o.packed_chunk_table, "packed_chunk_table"@);
    let b2 = flag(b1, o.packed_directories, "packed_directories"@);
    lemma_flag(b1, o.packed_directories, "packed_directories"@);
    let b3 = flag(b2, o.packed_shared_files_table, "packed_shared_files_table"@);
    lemma_flag(b2, o.packed_shared_files_table, "packed_shared_files_table"@);
    let b4 = flag(b3, o.has_btime, "has_btime"@);
    lemma_flag(b3, o.has_btime, "has_btime"@);
    let b5 = flag(b4, o.inodes_have_nlink, "inodes_have_nlink"@);
    lemma_flag(b4, o.inodes_have_nlink, "inodes_have_nlink"@);
}

} // verus!
