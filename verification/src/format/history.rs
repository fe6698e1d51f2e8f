//! `HISTORY` section decoder.
//!
//! The section is Thrift compact encoded. It is purely informational: an
//! image reads correctly whether or not it carries one, and unknown
//! fields are skipped so a section written by a newer producer still
//! decodes as far as it can.

use crate::error::{Error, ErrorView, decode_error};
use crate::metadata::thrift::{
    FieldHeader, Step, TType, ThriftReader, ThriftState, field_header_step, i16_step, i64_step,
    lemma_skip_moves, lemma_steps_move, list_header_step, skip_step, stepped, string_step,
};
use vstd::prelude::*;

verus! {

/// Version of the implementation that wrote a history entry.
#[derive(Debug, Clone, PartialEq, Eq)]
pub struct HistoryVersion {
    /// Major version number.
    pub major: u16,
    /// Minor version number.
    pub minor: u16,
    /// Patch version number.
    pub patch: u16,
    /// Whether the writer identified itself as a tagged release.
    pub is_release: bool,
    /// Source revision, when the writer recorded one.
    pub git_rev: Option<String>,
    /// Source branch, when the writer recorded one.
    pub git_branch: Option<String>,
    /// Source description, when the writer recorded one.
    pub git_desc: Option<String>,
}

/// One recorded build of an image.
#[derive(Debug, Clone, PartialEq, Eq)]
pub struct HistoryEntry {
    /// Version of the writer.
    pub version: HistoryVersion,
    /// Host identifier the writer ran on.
    pub system_id: String,
    /// Compiler that built the writer.
    pub compiler_id: String,
    /// Command line, when the writer recorded one.
    pub arguments: Option<Vec<String>>,
    /// Build time in epoch seconds, when the writer recorded one.
    pub timestamp: Option<u64>,
    /// Versions of libraries the writer linked against.
    pub library_versions: Vec<String>,
}

/// What a [`HistoryVersion`] says.
#[verifier::ext_equal]
pub struct VersionView {
    pub major: u16,
    pub minor: u16,
    pub patch: u16,
    pub is_release: bool,
    pub git_rev: Option<Seq<char>>,
    pub git_branch: Option<Seq<char>>,
    pub git_desc: Option<Seq<char>>,
}

/// What a [`HistoryEntry`] says.
#[verifier::ext_equal]
pub struct EntryView {
    pub version: VersionView,
    pub system_id: Seq<char>,
    pub compiler_id: Seq<char>,
    pub arguments: Option<Seq<Seq<char>>>,
    pub timestamp: Option<u64>,
    pub library_versions: Seq<Seq<char>>,
}

/// The text behind an optional string.
pub open spec fn optional_text(s: Option<String>) -> Option<Seq<char>> {
    match s {
        Some(t) => Some(t@),
        None => None,
    }
}

/// The texts behind a list of strings.
pub open spec fn string_views(v: Seq<String>) -> Seq<Seq<char>> {
    v.map_values(|s: String| s@)
}

impl View for HistoryVersion {
    type V = VersionView;

    open spec fn view(&self) -> VersionView {
        VersionView {
            major: self.major,
            minor: self.minor,
            patch: self.patch,
            is_release: self.is_release,
            git_rev: optional_text(self.git_rev),
            git_branch: optional_text(self.git_branch),
            git_desc: optional_text(self.git_desc),
        }
    }
}

impl View for HistoryEntry {
    type V = EntryView;

    open spec fn view(&self) -> EntryView {
        EntryView {
            version: self.version@,
            system_id: self.system_id@,
            compiler_id: self.compiler_id@,
            arguments: match self.arguments {
                Some(v) => Some(string_views(v@)),
                None => None,
            },
            timestamp: self.timestamp,
            library_versions: string_views(self.library_versions@),
        }
    }
}

impl VersionView {
    pub open spec fn blank() -> VersionView {
        VersionView {
            major: 0,
            minor: 0,
            patch: 0,
            is_release: false,
            git_rev: None,
            git_branch: None,
            git_desc: None,
        }
    }
}

impl EntryView {
    pub open spec fn blank() -> EntryView {
        EntryView {
            version: VersionView::blank(),
            system_id: Seq::empty(),
            compiler_id: Seq::empty(),
            arguments: None,
            timestamp: None,
            library_versions: Seq::empty(),
        }
    }
}

impl Default for HistoryVersion {
    fn default() -> (r: Self)
        ensures
            r@ == VersionView::blank(),
    {
        HistoryVersion {
            major: 0,
            minor: 0,
            patch: 0,
            is_release: false,
            git_rev: None,
            git_branch: None,
            git_desc: None,
        }
    }
}

impl Default for HistoryEntry {
    fn default() -> (r: Self)
        ensures
            r@ == EntryView::blank(),
    {
        let r = HistoryEntry {
            version: HistoryVersion::default(),
            system_id: String::new(),
            compiler_id: String::new(),
            arguments: None,
            timestamp: None,
            library_versions: Vec::new(),
        };
        assert(r@.library_versions =~= Seq::<Seq<char>>::empty());
        r
    }
}

/// A decode failure of this module.
pub open spec fn history_error(message: Seq<char>) -> ErrorView {
    ErrorView::Decode { codec: "history"@, message }
}

/// `v`, or zero when it is negative.
pub open spec fn at_least_zero(v: int) -> int {
    if v < 0 {
        0
    } else {
        v
    }
}

/// `count` strings, after `acc`.
pub open spec fn strings_step(st: ThriftState, count: nat, acc: Seq<Seq<char>>) -> Step<
    Seq<Seq<char>>,
>
    decreases count,
{
    if count == 0 {
        (Ok(acc), st)
    } else {
        match string_step(st) {
            (Ok(s), next) => strings_step(next, (count - 1) as nat, acc.push(s)),
            (Err(e), next) => (Err(e), next),
        }
    }
}

/// A list or set of strings after `acc`; `complaint` is for other elements.
pub open spec fn string_list_step(st: ThriftState, acc: Seq<Seq<char>>, complaint: Seq<char>) ->
    Step<Seq<Seq<char>>> {
    match list_header_step(st) {
        (Ok((element, count)), next) => if element != TType::Binary {
            (Err(history_error(complaint)), next)
        } else {
            strings_step(next, count as nat, acc)
        },
        (Err(e), next) => (Err(e), next),
    }
}

/// One field of a version struct, added to what is known of it.
pub open spec fn version_member_step(st: ThriftState, fh: FieldHeader, acc: VersionView) -> Step<
    VersionView,
> {
    if fh.ttype == TType::I16 && 1 <= fh.id <= 3 {
        match i16_step(st) {
            (Ok(v), next) => {
                let n = at_least_zero(v as int) as u16;
                (
                    Ok(
                        if fh.id == 1 {
                            VersionView { major: n, ..acc }
                        } else if fh.id == 2 {
                            VersionView { minor: n, ..acc }
                        } else {
                            VersionView { patch: n, ..acc }
                        },
                    ),
                    next,
                )
            },
            (Err(e), next) => (Err(e), next),
        }
    } else if fh.id == 4 && fh.ttype == TType::BoolTrue {
        (Ok(VersionView { is_release: true, ..acc }), st)
    } else if fh.id == 4 && fh.ttype == TType::BoolFalse {
        (Ok(VersionView { is_release: false, ..acc }), st)
    } else if fh.ttype == TType::Binary && 5 <= fh.id <= 7 {
        match string_step(st) {
            (Ok(s), next) => (
                Ok(
                    if fh.id == 5 {
                        VersionView { git_rev: Some(s), ..acc }
                    } else if fh.id == 6 {
                        VersionView { git_branch: Some(s), ..acc }
                    } else {
                        VersionView { git_desc: Some(s), ..acc }
                    },
                ),
                next,
            ),
            (Err(e), next) => (Err(e), next),
        }
    } else {
        match skip_step(st, fh.ttype) {
            (Ok(_), next) => (Ok(acc), next),
            (Err(e), next) => (Err(e), next),
        }
    }
}

/// The rest of a version struct, to its end.
pub open spec fn version_members_step(st: ThriftState, acc: VersionView) -> Step<VersionView>
    decreases st.left(),
{
    match field_header_step(st) {
        (Ok(None), next) => (Ok(acc), next.end_struct()),
        (Ok(Some(fh)), next) => match version_member_step(next, fh, acc) {
            (Ok(more), after) => if after.left() < st.left() {
                version_members_step(after, more)
            } else {
                (Ok(more), after)
            },
            (Err(e), after) => (Err(e), after),
        },
        (Err(e), next) => (Err(e), next),
    }
}

/// A version struct.
pub open spec fn version_step(st: ThriftState) -> Step<VersionView> {
    version_members_step(st.begin_struct(), VersionView::blank())
}

/// One field of an entry struct, added to what is known of it.
pub open spec fn entry_member_step(st: ThriftState, fh: FieldHeader, acc: EntryView) -> Step<
    EntryView,
> {
    if fh.id == 1 && fh.ttype == TType::Struct {
        match version_step(st) {
            (Ok(version), next) => (Ok(EntryView { version, ..acc }), next),
            (Err(e), next) => (Err(e), next),
        }
    } else if fh.id == 2 && fh.ttype == TType::Binary {
        match string_step(st) {
            (Ok(system_id), next) => (Ok(EntryView { system_id, ..acc }), next),
            (Err(e), next) => (Err(e), next),
        }
    } else if fh.id == 3 && fh.ttype == TType::Binary {
        match string_step(st) {
            (Ok(compiler_id), next) => (Ok(EntryView { compiler_id, ..acc }), next),
            (Err(e), next) => (Err(e), next),
        }
    } else if fh.id == 4 && fh.ttype == TType::List {
        match string_list_step(st, Seq::empty(), "expected a list of strings"@) {
            (Ok(v), next) => (Ok(EntryView { arguments: Some(v), ..acc }), next),
            (Err(e), next) => (Err(e), next),
        }
    } else if fh.id == 5 && fh.ttype == TType::I64 {
        match i64_step(st) {
            (Ok(v), next) => (
                Ok(EntryView { timestamp: Some(at_least_zero(v as int) as u64), ..acc }),
                next,
            ),
            (Err(e), next) => (Err(e), next),
        }
    } else if fh.id == 6 && fh.ttype == TType::SetOf {
        match string_list_step(
            st,
            acc.library_versions,
            "library_versions is not a set of strings"@,
        ) {
            (Ok(v), next) => (Ok(EntryView { library_versions: v, ..acc }), next),
            (Err(e), next) => (Err(e), next),
        }
    } else {
        match skip_step(st, fh.ttype) {
            (Ok(_), next) => (Ok(acc), next),
            (Err(e), next) => (Err(e), next),
        }
    }
}

/// The rest of an entry struct, to its end.
pub open spec fn entry_members_step(st: ThriftState, acc: EntryView) -> Step<EntryView>
    decreases st.left(),
{
    match field_header_step(st) {
        (Ok(None), next) => (Ok(acc), next.end_struct()),
        (Ok(Some(fh)), next) => match entry_member_step(next, fh, acc) {
            (Ok(more), after) => if after.left() < st.left() {
                entry_members_step(after, more)
            } else {
                (Ok(more), after)
            },
            (Err(e), after) => (Err(e), after),
        },
        (Err(e), next) => (Err(e), next),
    }
}

/// An entry struct.
pub open spec fn entry_step(st: ThriftState) -> Step<EntryView> {
    entry_members_step(st.begin_struct(), EntryView::blank())
}

/// `count` entries, after `acc`.
pub open spec fn entries_step(st: ThriftState, count: nat, acc: Seq<EntryView>) -> Step<
    Seq<EntryView>,
>
    decreases count,
{
    if count == 0 {
        (Ok(acc), st)
    } else {
        match entry_step(st) {
            (Ok(entry), next) => entries_step(next, (count - 1) as nat, acc.push(entry)),
            (Err(e), next) => (Err(e), next),
        }
    }
}

/// One field of the history struct, added to the entries so far.
pub open spec fn history_member_step(st: ThriftState, fh: FieldHeader, acc: Seq<EntryView>) -> Step<
    Seq<EntryView>,
> {
    if fh.id == 1 && fh.ttype == TType::List {
        match list_header_step(st) {
            (Ok((element, count)), next) => if element != TType::Struct {
                (Err(history_error("history entries are not structs"@)), next)
            } else {
                entries_step(next, count as nat, acc)
            },
            (Err(e), next) => (Err(e), next),
        }
    } else {
        match skip_step(st, fh.ttype) {
            (Ok(_), next) => (Ok(acc), next),
            (Err(e), next) => (Err(e), next),
        }
    }
}

/// The rest of the history struct, to its end.
pub open spec fn history_members_step(st: ThriftState, acc: Seq<EntryView>) -> Step<Seq<EntryView>>
    decreases st.left(),
{
    match field_header_step(st) {
        (Ok(None), next) => (Ok(acc), next.end_struct()),
        (Ok(Some(fh)), next) => match history_member_step(next, fh, acc) {
            (Ok(more), after) => if after.left() < st.left() {
                history_members_step(after, more)
            } else {
                (Ok(more), after)
            },
            (Err(e), after) => (Err(e), after),
        },
        (Err(e), next) => (Err(e), next),
    }
}

/// What decoding a history payload answers.
pub open spec fn history_of(payload: Seq<u8>) -> Result<Seq<EntryView>, ErrorView> {
    history_members_step(ThriftState::start(payload).begin_struct(), Seq::empty()).0
}

/// What a list of entries says.
pub open spec fn entry_views(v: Seq<HistoryEntry>) -> Seq<EntryView> {
    v.map_values(|e: HistoryEntry| e@)
}

proof fn lemma_strings_move(st: ThriftState, count: nat, acc: Seq<Seq<char>>)
    requires
        st.pos <= st.bytes.len(),
    ensures
        st.precedes(strings_step(st, count, acc).1),
    decreases count,
{
    if count > 0 {
        lemma_steps_move(st);
        if let (Ok(s), next) = string_step(st) {
            lemma_strings_move(next, (count - 1) as nat, acc.push(s));
        }
    }
}

proof fn lemma_string_list_moves(st: ThriftState, acc: Seq<Seq<char>>, complaint: Seq<char>)
    requires
        st.pos <= st.bytes.len(),
    ensures
        st.precedes(string_list_step(st, acc, complaint).1),
{
    lemma_steps_move(st);
    if let (Ok((element, count)), next) = list_header_step(st) {
        lemma_strings_move(next, count as nat, acc);
    }
}

proof fn lemma_version_members_move(st: ThriftState, acc: VersionView)
    requires
        st.pos <= st.bytes.len(),
    ensures
        st.precedes(version_members_step(st, acc).1),
    decreases st.left(),
{
    lemma_steps_move(st);
    if let (Ok(Some(fh)), next) = field_header_step(st) {
        lemma_steps_move(next);
        lemma_skip_moves(next, fh.ttype);
        if let (Ok(more), after) = version_member_step(next, fh, acc) {
            lemma_version_members_move(after, more);
        }
    }
}

proof fn lemma_entry_member_moves(st: ThriftState, fh: FieldHeader, acc: EntryView)
    requires
        st.pos <= st.bytes.len(),
    ensures
        st.precedes(entry_member_step(st, fh, acc).1),
{
    lemma_steps_move(st);
    lemma_skip_moves(st, fh.ttype);
    lemma_version_members_move(st.begin_struct(), VersionView::blank());
    lemma_string_list_moves(st, Seq::empty(), "expected a list of strings"@);
    lemma_string_list_moves(
        st,
        acc.library_versions,
        "library_versions is not a set of strings"@,
    );
}

proof fn lemma_entry_members_move(st: ThriftState, acc: EntryView)
    requires
        st.pos <= st.bytes.len(),
    ensures
        st.precedes(entry_members_step(st, acc).1),
    decreases st.left(),
{
    lemma_steps_move(st);
    if let (Ok(Some(fh)), next) = field_header_step(st) {
        lemma_entry_member_moves(next, fh, acc);
        if let (Ok(more), after) = entry_member_step(next, fh, acc) {
            lemma_entry_members_move(after, more);
        }
    }
}

proof fn lemma_entries_move(st: ThriftState, count: nat, acc: Seq<EntryView>)
    requires
        st.pos <= st.bytes.len(),
    ensures
        st.precedes(entries_step(st, count, acc).1),
    decreases count,
{
    if count > 0 {
        lemma_entry_members_move(st.begin_struct(), EntryView::blank());
        if let (Ok(entry), next) = entry_step(st) {
            lemma_entries_move(next, (count - 1) as nat, acc.push(entry));
        }
    }
}

proof fn lemma_history_member_moves(st: ThriftState, fh: FieldHeader, acc: Seq<EntryView>)
    requires
        st.pos <= st.bytes.len(),
    ensures
        st.precedes(history_member_step(st, fh, acc).1),
{
    lemma_steps_move(st);
    lemma_skip_moves(st, fh.ttype);
    if let (Ok((element, count)), next) = list_header_step(st) {
        lemma_entries_move(next, count as nat, acc);
    }
}

/// Decode a `HISTORY` section payload into its entries.
pub fn parse(payload: &[u8]) -> (r: Result<Vec<HistoryEntry>, Error>)
    ensures
        match r {
            Ok(v) => history_of(payload@) == Ok::<Seq<EntryView>, ErrorView>(entry_views(v@)),
            Err(e) => history_of(payload@) == Err::<Seq<EntryView>, ErrorView>(e@),
        },
{
    let mut r = ThriftReader::new(payload);
    let mut entries: Vec<HistoryEntry> = Vec::new();
    assert(entry_views(entries@) =~= Seq::<EntryView>::empty());
    r.read_struct_begin();
    loop
        invariant
            r.wf(),
            history_members_step(
                ThriftState::start(payload@).begin_struct(),
                Seq::empty(),
            ) == history_members_step(r@, entry_views(entries@)),
        decreases r@.left(),
    {
        proof {
            r.lemma_wf();
            lemma_steps_move(r@);
        }
        let fh: FieldHeader = match r.read_field_header()? {
            Some(fh) => fh,
            None => {
                r.read_struct_end();
                return Ok(entries);
            },
        };
        proof {
            r.lemma_wf();
            lemma_history_member_moves(r@, fh, entry_views(entries@));
        }
        if fh.id == 1 && fh.ttype == TType::List {
            let ghost want = history_member_step(r@, fh, entry_views(entries@));
            let (element, count): (TType, u32) = r.read_list_header()?;
            if element != TType::Struct {
                return Err(decode_error("history", "history entries are not structs"));
            }
            let mut left: u32 = count;
            let ghost before_loop = history_members_step(
                ThriftState::start(payload@).begin_struct(),
                Seq::empty(),
            );
            while left > 0
                invariant
                    r.wf(),
                    want == entries_step(r@, left as nat, entry_views(entries@)),
                    before_loop == history_members_step(
                        ThriftState::start(payload@).begin_struct(),
                        Seq::empty(),
                    ),
                    want.0 matches Err(e) ==> before_loop.0 == Err::<Seq<EntryView>, ErrorView>(e),
                decreases left,
            {
                let entry: HistoryEntry = read_entry(&mut r)?;
                let ghost before = entries@;
                let ghost e = entry@;
                entries.push(entry);
                assert(entry_views(entries@) =~= entry_views(before).push(e));
                left = left - 1;
            }
        } else {
            r.skip_value(fh.ttype)?;
        }
    }
}

fn read_entry(r: &mut ThriftReader<'_>) -> (res: Result<HistoryEntry, Error>)
    requires
        old(r).wf(),
    ensures
        final(r).wf(),
        stepped(res, final(r)@, entry_step(old(r)@)),
{
    let mut entry: HistoryEntry = HistoryEntry::default();
    r.read_struct_begin();
    loop
        invariant
            r.wf(),
            entry_step(old(r)@) == entry_members_step(r@, entry@),
        decreases r@.left(),
    {
        proof {
            r.lemma_wf();
            lemma_steps_move(r@);
        }
        let fh: FieldHeader = match r.read_field_header()? {
            Some(fh) => fh,
            None => {
                r.read_struct_end();
                return Ok(entry);
            },
        };
        proof {
            r.lemma_wf();
            lemma_entry_member_moves(r@, fh, entry@);
        }
        if fh.id == 1 && fh.ttype == TType::Struct {
            entry.version = read_version(r)?;
        } else if fh.id == 2 && fh.ttype == TType::Binary {
            entry.system_id = read_utf8(r)?;
        } else if fh.id == 3 && fh.ttype == TType::Binary {
            entry.compiler_id = read_utf8(r)?;
        } else if fh.id == 4 && fh.ttype == TType::List {
            let none: Vec<String> = Vec::new();
            assert(string_views(none@) =~= Seq::<Seq<char>>::empty());
            let list: Vec<String> = read_string_list(r, none, "expected a list of strings")?;
            entry.arguments = Some(list);
        } else if fh.id == 5 && fh.ttype == TType::I64 {
            let v: i64 = r.read_i64()?;
            entry.timestamp = Some(
                if v < 0 {
                    0
                } else {
                    v as u64
                },
            );
        } else if fh.id == 6 && fh.ttype == TType::SetOf {
            let mut so_far: Vec<String> = Vec::new();
            std::mem::swap(&mut so_far, &mut entry.library_versions);
            entry.library_versions =
            read_string_list(r, so_far, "library_versions is not a set of strings")?;
        } else {
            r.skip_value(fh.ttype)?;
        }
    }
}

fn read_version(r: &mut ThriftReader<'_>) -> (res: Result<HistoryVersion, Error>)
    requires
        old(r).wf(),
    ensures
        final(r).wf(),
        stepped(res, final(r)@, version_step(old(r)@)),
{
    let mut version: HistoryVersion = HistoryVersion::default();
    r.read_struct_begin();
    loop
        invariant
            r.wf(),
            version_step(old(r)@) == version_members_step(r@, version@),
        decreases r@.left(),
    {
        proof {
            r.lemma_wf();
            lemma_steps_move(r@);
        }
        let fh: FieldHeader = match r.read_field_header()? {
            Some(fh) => fh,
            None => {
                r.read_struct_end();
                return Ok(version);
            },
        };
        proof {
            r.lemma_wf();
            lemma_steps_move(r@);
            lemma_skip_moves(r@, fh.ttype);
        }
        if fh.ttype == TType::I16 && 1 <= fh.id && fh.id <= 3 {
            let v: i16 = r.read_i16()?;
            let n: u16 = if v < 0 {
                0
            } else {
                v as u16
            };
            if fh.id == 1 {
                version.major = n;
            } else if fh.id == 2 {
                version.minor = n;
            } else {
                version.patch = n;
            }
        } else if fh.id == 4 && fh.ttype == TType::BoolTrue {
            version.is_release = true;
        } else if fh.id == 4 && fh.ttype == TType::BoolFalse {
            version.is_release = false;
        } else if fh.ttype == TType::Binary && 5 <= fh.id && fh.id <= 7 {
            let s: String = read_utf8(r)?;
            if fh.id == 5 {
                version.git_rev = Some(s);
            } else if fh.id == 6 {
                version.git_branch = Some(s);
            } else {
                version.git_desc = Some(s);
            }
        } else {
            r.skip_value(fh.ttype)?;
        }
    }
}

/// Read a list or set of strings, after those already known.
fn read_string_list(
    r: &mut ThriftReader<'_>,
    so_far: Vec<String>,
    complaint: &'static str,
) -> (res: Result<Vec<String>, Error>)
    requires
        old(r).wf(),
    ensures
        final(r).wf(),
        ({
            let want = string_list_step(old(r)@, string_views(so_far@), complaint@);
            &&& final(r)@ == want.1
            &&& match res {
                Ok(v) => want.0 == Ok::<Seq<Seq<char>>, ErrorView>(string_views(v@)),
                Err(e) => want.0 == Err::<Seq<Seq<char>>, ErrorView>(e@),
            }
        }),
{
    let ghost want = string_list_step(old(r)@, string_views(so_far@), complaint@);
    let (element, count): (TType, u32) = r.read_list_header()?;
    if element != TType::Binary {
        return Err(decode_error("history", complaint));
    }
    let mut out: Vec<String> = so_far;
    let mut left: u32 = count;
    while left > 0
        invariant
            r.wf(),
            want == string_list_step(old(r)@, string_views(so_far@), complaint@),
            want == strings_step(r@, left as nat, string_views(out@)),
        decreases left,
    {
        let s: String = read_utf8(r)?;
        let ghost before = out@;
        let ghost t = s@;
        out.push(s);
        assert(string_views(out@) =~= string_views(before).push(t));
        left = left - 1;
    }
    Ok(out)
}

/// Read a string field. History strings are human-readable text, so a
/// non-UTF-8 value is reported rather than silently replaced.
fn read_utf8(r: &mut ThriftReader<'_>) -> (res: Result<String, Error>)
    requires
        old(r).wf(),
    ensures
        final(r).wf(),
        stepped(res, final(r)@, string_step(old(r)@)),
{
    r.read_string()
}

} // verus!
