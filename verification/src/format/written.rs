//! A history reads back as it was written.

use crate::error::ErrorView;
use crate::format::history::{
    EntryView, VersionView, entries_step, entry_members_step, entry_step, history_member_step,
    history_members_step, history_of, string_list_step, strings_step, version_members_step,
    version_step,
};
use crate::metadata::thrift::{FieldHeader, TType, ThriftState};
use crate::metadata::wire::{
    Value, at_next, at_value, comes_next, fields_come, items_bytes, lemma_end_comes,
    lemma_field_comes, lemma_list_fronts_read_back, lemma_next_after, lemma_next_item,
    lemma_numbers_read_back, lemma_strings_read_back, lemma_struct_comes,
    lemma_unknown_values_are_passed_over, list_front, sound, value_bytes,
};
use crate::utf8::text_of;
use vstd::prelude::*;

verus! {

/// The texts as a writer records them.
pub open spec fn text_values(texts: Seq<Seq<u8>>) -> Seq<Value> {
    texts.map_values(|t: Seq<u8>| Value::Binary { bytes: t })
}

/// What the texts say.
pub open spec fn texts_said(texts: Seq<Seq<u8>>) -> Seq<Seq<char>> {
    texts.map_values(|t: Seq<u8>| text_of(t)->Some_0)
}

/// Whether the texts can be written.
pub open spec fn all_text(texts: Seq<Seq<u8>>) -> bool {
    &&& texts.len() <= u32::MAX
    &&& forall|i: int| 0 <= i < texts.len() ==> text_of(#[trigger] texts[i]) is Some
}

proof fn lemma_strings(st: ThriftState, texts: Seq<Seq<u8>>, k: nat, acc: Seq<Seq<char>>)
    requires
        k <= texts.len(),
        all_text(texts),
        comes_next(st, items_bytes(text_values(texts), k)),
    ensures
        strings_step(st, (texts.len() - k) as nat, acc) == (
            Ok::<Seq<Seq<char>>, ErrorView>(acc + texts_said(texts).skip(k as int)),
            st.advance(items_bytes(text_values(texts), k).len()),
        ),
    decreases texts.len() - k,
{
    let values = text_values(texts);
    let views = texts_said(texts);
    if k < texts.len() {
        lemma_next_item(st, values, k);
        assert(values[k as int] == Value::Binary { bytes: texts[k as int] });
        assert(text_of(texts[k as int]) is Some);
        lemma_strings_read_back(st, texts[k as int]);
        let next = st.advance(value_bytes(values[k as int]).len());
        lemma_strings(next, texts, k + 1, acc.push(views[k as int]));
        assert(acc.push(views[k as int]) + views.skip((k + 1) as int) =~= acc + views.skip(
            k as int,
        ));
        assert(next.advance(items_bytes(values, k + 1).len()) == st.advance(
            items_bytes(values, k).len(),
        ));
    } else {
        assert(acc + views.skip(k as int) =~= acc);
    }
}

/// A list or set of texts reads back as it was written, behind what was
/// there.
pub proof fn lemma_text_lists_read_back(
    st: ThriftState,
    texts: Seq<Seq<u8>>,
    acc: Seq<Seq<char>>,
    complaint: Seq<char>,
)
    requires
        all_text(texts),
        comes_next(st, list_front(TType::Binary, texts.len()) + items_bytes(text_values(texts), 0)),
    ensures
        string_list_step(st, acc, complaint) == (
            Ok::<Seq<Seq<char>>, ErrorView>(acc + texts_said(texts)),
            st.advance(
                (list_front(TType::Binary, texts.len()) + items_bytes(text_values(texts), 0)).len(),
            ),
        ),
{
    let front = list_front(TType::Binary, texts.len());
    let body = items_bytes(text_values(texts), 0);
    let next = st.advance(front.len());
    lemma_next_after(st, front, body, next);
    lemma_list_fronts_read_back(st, TType::Binary, texts.len());
    lemma_strings(next, texts, 0, acc);
    assert(texts_said(texts).skip(0) =~= texts_said(texts));
    assert(next.advance(body.len()) == st.advance((front + body).len()));
}

/// A version before it is written.
pub struct WrittenVersion {
    pub major: i16,
    pub minor: i16,
    pub patch: i16,
    pub release: bool,
    pub rev: Seq<u8>,
    pub branch: Seq<u8>,
    pub desc: Seq<u8>,
}

/// A version as a writer records it.
pub open spec fn version_value(v: WrittenVersion) -> Value {
    Value::Struct {
        ids: seq![1i16, 2i16, 3i16, 4i16, 5i16, 6i16, 7i16],
        values: seq![
            Value::I16 { value: v.major as i64 },
            Value::I16 { value: v.minor as i64 },
            Value::I16 { value: v.patch as i64 },
            Value::Flag { on: v.release },
            Value::Binary { bytes: v.rev },
            Value::Binary { bytes: v.branch },
            Value::Binary { bytes: v.desc },
        ],
    }
}

/// What a version says.
pub open spec fn version_said(v: WrittenVersion) -> VersionView {
    VersionView {
        major: v.major as u16,
        minor: v.minor as u16,
        patch: v.patch as u16,
        is_release: v.release,
        git_rev: Some(text_of(v.rev)->Some_0),
        git_branch: Some(text_of(v.branch)->Some_0),
        git_desc: Some(text_of(v.desc)->Some_0),
    }
}

/// Whether a version can be written.
pub open spec fn version_writable(v: WrittenVersion) -> bool {
    &&& v.major >= 0
    &&& v.minor >= 0
    &&& v.patch >= 0
    &&& text_of(v.rev) is Some
    &&& text_of(v.branch) is Some
    &&& text_of(v.desc) is Some
}

proof fn lemma_version_takes_number(
    st: ThriftState,
    ids: Seq<i16>,
    values: Seq<Value>,
    i: nat,
    end: nat,
    acc: VersionView,
    n: i16,
)
    requires
        i < values.len(),
        fields_come(st, ids, values, i, end),
        n >= 0,
        1 <= ids[i as int] <= 3,
        values[i as int] == (Value::I16 { value: n as i64 }),
    ensures
        fields_come(at_next(st, ids, values, i), ids, values, i + 1, end),
        ids[i as int] == 1 ==> version_members_step(st, acc) == version_members_step(
            at_next(st, ids, values, i),
            VersionView { major: n as u16, ..acc },
        ),
        ids[i as int] == 2 ==> version_members_step(st, acc) == version_members_step(
            at_next(st, ids, values, i),
            VersionView { minor: n as u16, ..acc },
        ),
        ids[i as int] == 3 ==> version_members_step(st, acc) == version_members_step(
            at_next(st, ids, values, i),
            VersionView { patch: n as u16, ..acc },
        ),
{
    lemma_field_comes(st, ids, values, i, end);
    lemma_numbers_read_back(at_value(st, ids, values, i), n as i64);
}

proof fn lemma_version_takes_flag(
    st: ThriftState,
    ids: Seq<i16>,
    values: Seq<Value>,
    i: nat,
    end: nat,
    acc: VersionView,
    on: bool,
)
    requires
        i < values.len(),
        fields_come(st, ids, values, i, end),
        ids[i as int] == 4,
        values[i as int] == (Value::Flag { on }),
    ensures
        fields_come(at_next(st, ids, values, i), ids, values, i + 1, end),
        version_members_step(st, acc) == version_members_step(
            at_next(st, ids, values, i),
            VersionView { is_release: on, ..acc },
        ),
{
    lemma_field_comes(st, ids, values, i, end);
    assert(at_next(st, ids, values, i) == at_value(st, ids, values, i));
}

proof fn lemma_version_takes_text(
    st: ThriftState,
    ids: Seq<i16>,
    values: Seq<Value>,
    i: nat,
    end: nat,
    acc: VersionView,
    t: Seq<u8>,
)
    requires
        i < values.len(),
        fields_come(st, ids, values, i, end),
        text_of(t) is Some,
        5 <= ids[i as int] <= 7,
        values[i as int] == (Value::Binary { bytes: t }),
    ensures
        fields_come(at_next(st, ids, values, i), ids, values, i + 1, end),
        ids[i as int] == 5 ==> version_members_step(st, acc) == version_members_step(
            at_next(st, ids, values, i),
            VersionView { git_rev: Some(text_of(t)->Some_0), ..acc },
        ),
        ids[i as int] == 6 ==> version_members_step(st, acc) == version_members_step(
            at_next(st, ids, values, i),
            VersionView { git_branch: Some(text_of(t)->Some_0), ..acc },
        ),
        ids[i as int] == 7 ==> version_members_step(st, acc) == version_members_step(
            at_next(st, ids, values, i),
            VersionView { git_desc: Some(text_of(t)->Some_0), ..acc },
        ),
{
    lemma_field_comes(st, ids, values, i, end);
    lemma_strings_read_back(at_value(st, ids, values, i), t);
}

/// A version reads back as it was written.
pub proof fn lemma_versions_read_back(st: ThriftState, v: WrittenVersion)
    requires
        version_writable(v),
        comes_next(st, value_bytes(version_value(v))),
    ensures
        version_step(st) == (
            Ok::<VersionView, ErrorView>(version_said(v)),
            st.advance(value_bytes(version_value(v)).len()),
        ),
{
    let ids = seq![1i16, 2i16, 3i16, 4i16, 5i16, 6i16, 7i16];
    let values = seq![
        Value::I16 { value: v.major as i64 },
        Value::I16 { value: v.minor as i64 },
        Value::I16 { value: v.patch as i64 },
        Value::Flag { on: v.release },
        Value::Binary { bytes: v.rev },
        Value::Binary { bytes: v.branch },
        Value::Binary { bytes: v.desc },
    ];
    let end = st.pos + value_bytes(version_value(v)).len();
    let st0 = st.begin_struct();
    let st1 = at_next(st0, ids, values, 0);
    let st2 = at_next(st1, ids, values, 1);
    let st3 = at_next(st2, ids, values, 2);
    let st4 = at_next(st3, ids, values, 3);
    let st5 = at_next(st4, ids, values, 4);
    let st6 = at_next(st5, ids, values, 5);
    let st7 = at_next(st6, ids, values, 6);
    let a0 = VersionView::blank();
    let a1 = VersionView { major: v.major as u16, ..a0 };
    let a2 = VersionView { minor: v.minor as u16, ..a1 };
    let a3 = VersionView { patch: v.patch as u16, ..a2 };
    let a4 = VersionView { is_release: v.release, ..a3 };
    let a5 = VersionView { git_rev: Some(text_of(v.rev)->Some_0), ..a4 };
    let a6 = VersionView { git_branch: Some(text_of(v.branch)->Some_0), ..a5 };
    lemma_struct_comes(st, ids, values);
    lemma_version_takes_number(st0, ids, values, 0, end, a0, v.major);
    lemma_version_takes_number(st1, ids, values, 1, end, a1, v.minor);
    lemma_version_takes_number(st2, ids, values, 2, end, a2, v.patch);
    lemma_version_takes_flag(st3, ids, values, 3, end, a3, v.release);
    lemma_version_takes_text(st4, ids, values, 4, end, a4, v.rev);
    lemma_version_takes_text(st5, ids, values, 5, end, a5, v.branch);
    lemma_version_takes_text(st6, ids, values, 6, end, a6, v.desc);
    lemma_end_comes(st7, ids, values, end);
    assert(st7.advance(1).end_struct() =~= st.advance(value_bytes(version_value(v)).len()));
}

/// A history entry before it is written, with one more field that this
/// version does not know.
pub struct WrittenEntry {
    pub version: WrittenVersion,
    pub system: Seq<u8>,
    pub compiler: Seq<u8>,
    pub arguments: Seq<Seq<u8>>,
    pub timestamp: i64,
    pub libraries: Seq<Seq<u8>>,
    pub id: i16,
    pub unknown: Value,
}

/// A history entry as a writer records it.
pub open spec fn entry_value(e: WrittenEntry) -> Value {
    Value::Struct {
        ids: seq![1i16, 2i16, 3i16, 4i16, 5i16, 6i16, e.id],
        values: seq![
            version_value(e.version),
            Value::Binary { bytes: e.system },
            Value::Binary { bytes: e.compiler },
            Value::List { of: TType::Binary, items: text_values(e.arguments) },
            Value::I64 { value: e.timestamp },
            Value::SetOf { of: TType::Binary, items: text_values(e.libraries) },
            e.unknown,
        ],
    }
}

/// What a history entry says.
pub open spec fn entry_said(e: WrittenEntry) -> EntryView {
    EntryView {
        version: version_said(e.version),
        system_id: text_of(e.system)->Some_0,
        compiler_id: text_of(e.compiler)->Some_0,
        arguments: Some(texts_said(e.arguments)),
        timestamp: Some(e.timestamp as u64),
        library_versions: texts_said(e.libraries),
    }
}

/// Whether a history entry can be written.
pub open spec fn entry_writable(e: WrittenEntry) -> bool {
    &&& version_writable(e.version)
    &&& text_of(e.system) is Some
    &&& text_of(e.compiler) is Some
    &&& all_text(e.arguments)
    &&& e.timestamp >= 0
    &&& all_text(e.libraries)
    &&& !(1 <= e.id <= 6)
    &&& sound(e.unknown)
}

proof fn lemma_entry_takes_version(
    st: ThriftState,
    ids: Seq<i16>,
    values: Seq<Value>,
    i: nat,
    end: nat,
    acc: EntryView,
    v: WrittenVersion,
)
    requires
        i < values.len(),
        fields_come(st, ids, values, i, end),
        version_writable(v),
        ids[i as int] == 1,
        values[i as int] == version_value(v),
    ensures
        fields_come(at_next(st, ids, values, i), ids, values, i + 1, end),
        entry_members_step(st, acc) == entry_members_step(
            at_next(st, ids, values, i),
            EntryView { version: version_said(v), ..acc },
        ),
{
    lemma_field_comes(st, ids, values, i, end);
    lemma_versions_read_back(at_value(st, ids, values, i), v);
}

proof fn lemma_entry_takes_text(
    st: ThriftState,
    ids: Seq<i16>,
    values: Seq<Value>,
    i: nat,
    end: nat,
    acc: EntryView,
    t: Seq<u8>,
)
    requires
        i < values.len(),
        fields_come(st, ids, values, i, end),
        text_of(t) is Some,
        2 <= ids[i as int] <= 3,
        values[i as int] == (Value::Binary { bytes: t }),
    ensures
        fields_come(at_next(st, ids, values, i), ids, values, i + 1, end),
        ids[i as int] == 2 ==> entry_members_step(st, acc) == entry_members_step(
            at_next(st, ids, values, i),
            EntryView { system_id: text_of(t)->Some_0, ..acc },
        ),
        ids[i as int] == 3 ==> entry_members_step(st, acc) == entry_members_step(
            at_next(st, ids, values, i),
            EntryView { compiler_id: text_of(t)->Some_0, ..acc },
        ),
{
    lemma_field_comes(st, ids, values, i, end);
    lemma_strings_read_back(at_value(st, ids, values, i), t);
}

proof fn lemma_entry_takes_arguments(
    st: ThriftState,
    ids: Seq<i16>,
    values: Seq<Value>,
    i: nat,
    end: nat,
    acc: EntryView,
    texts: Seq<Seq<u8>>,
)
    requires
        i < values.len(),
        fields_come(st, ids, values, i, end),
        all_text(texts),
        ids[i as int] == 4,
        values[i as int] == (Value::List { of: TType::Binary, items: text_values(texts) }),
    ensures
        fields_come(at_next(st, ids, values, i), ids, values, i + 1, end),
        entry_members_step(st, acc) == entry_members_step(
            at_next(st, ids, values, i),
            EntryView { arguments: Some(texts_said(texts)), ..acc },
        ),
{
    lemma_field_comes(st, ids, values, i, end);
    let none = Seq::<Seq<char>>::empty();
    assert(none + texts_said(texts) =~= texts_said(texts));
    lemma_text_lists_read_back(
        at_value(st, ids, values, i),
        texts,
        none,
        "expected a list of strings"@,
    );
}

proof fn lemma_entry_takes_time(
    st: ThriftState,
    ids: Seq<i16>,
    values: Seq<Value>,
    i: nat,
    end: nat,
    acc: EntryView,
    n: i64,
)
    requires
        i < values.len(),
        fields_come(st, ids, values, i, end),
        n >= 0,
        ids[i as int] == 5,
        values[i as int] == (Value::I64 { value: n }),
    ensures
        fields_come(at_next(st, ids, values, i), ids, values, i + 1, end),
        entry_members_step(st, acc) == entry_members_step(
            at_next(st, ids, values, i),
            EntryView { timestamp: Some(n as u64), ..acc },
        ),
{
    lemma_field_comes(st, ids, values, i, end);
    lemma_numbers_read_back(at_value(st, ids, values, i), n);
}

proof fn lemma_entry_takes_libraries(
    st: ThriftState,
    ids: Seq<i16>,
    values: Seq<Value>,
    i: nat,
    end: nat,
    acc: EntryView,
    texts: Seq<Seq<u8>>,
)
    requires
        i < values.len(),
        fields_come(st, ids, values, i, end),
        all_text(texts),
        ids[i as int] == 6,
        values[i as int] == (Value::SetOf { of: TType::Binary, items: text_values(texts) }),
    ensures
        fields_come(at_next(st, ids, values, i), ids, values, i + 1, end),
        entry_members_step(st, acc) == entry_members_step(
            at_next(st, ids, values, i),
            EntryView { library_versions: acc.library_versions + texts_said(texts), ..acc },
        ),
{
    lemma_field_comes(st, ids, values, i, end);
    lemma_text_lists_read_back(
        at_value(st, ids, values, i),
        texts,
        acc.library_versions,
        "library_versions is not a set of strings"@,
    );
}

proof fn lemma_entry_takes_nothing(
    st: ThriftState,
    ids: Seq<i16>,
    values: Seq<Value>,
    i: nat,
    end: nat,
    acc: EntryView,
)
    requires
        i < values.len(),
        fields_come(st, ids, values, i, end),
        !(1 <= ids[i as int] <= 6),
        sound(values[i as int]),
    ensures
        fields_come(at_next(st, ids, values, i), ids, values, i + 1, end),
        entry_members_step(st, acc) == entry_members_step(at_next(st, ids, values, i), acc),
{
    lemma_field_comes(st, ids, values, i, end);
    lemma_unknown_values_are_passed_over(at_value(st, ids, values, i), values[i as int]);
}

/// A history entry reads back as it was written.
pub proof fn lemma_entries_read_back(st: ThriftState, e: WrittenEntry)
    requires
        entry_writable(e),
        comes_next(st, value_bytes(entry_value(e))),
    ensures
        entry_step(st) == (
            Ok::<EntryView, ErrorView>(entry_said(e)),
            st.advance(value_bytes(entry_value(e)).len()),
        ),
{
    let ids = seq![1i16, 2i16, 3i16, 4i16, 5i16, 6i16, e.id];
    let values = seq![
        version_value(e.version),
        Value::Binary { bytes: e.system },
        Value::Binary { bytes: e.compiler },
        Value::List { of: TType::Binary, items: text_values(e.arguments) },
        Value::I64 { value: e.timestamp },
        Value::SetOf { of: TType::Binary, items: text_values(e.libraries) },
        e.unknown,
    ];
    let end = st.pos + value_bytes(entry_value(e)).len();
    let st0 = st.begin_struct();
    let st1 = at_next(st0, ids, values, 0);
    let st2 = at_next(st1, ids, values, 1);
    let st3 = at_next(st2, ids, values, 2);
    let st4 = at_next(st3, ids, values, 3);
    let st5 = at_next(st4, ids, values, 4);
    let st6 = at_next(st5, ids, values, 5);
    let st7 = at_next(st6, ids, values, 6);
    let a0 = EntryView::blank();
    let a1 = EntryView { version: version_said(e.version), ..a0 };
    let a2 = EntryView { system_id: text_of(e.system)->Some_0, ..a1 };
    let a3 = EntryView { compiler_id: text_of(e.compiler)->Some_0, ..a2 };
    let a4 = EntryView { arguments: Some(texts_said(e.arguments)), ..a3 };
    let a5 = EntryView { timestamp: Some(e.timestamp as u64), ..a4 };
    lemma_struct_comes(st, ids, values);
    lemma_entry_takes_version(st0, ids, values, 0, end, a0, e.version);
    lemma_entry_takes_text(st1, ids, values, 1, end, a1, e.system);
    lemma_entry_takes_text(st2, ids, values, 2, end, a2, e.compiler);
    lemma_entry_takes_arguments(st3, ids, values, 3, end, a3, e.arguments);
    lemma_entry_takes_time(st4, ids, values, 4, end, a4, e.timestamp);
    lemma_entry_takes_libraries(st5, ids, values, 5, end, a5, e.libraries);
    assert(Seq::<Seq<char>>::empty() + texts_said(e.libraries) =~= texts_said(e.libraries));
    lemma_entry_takes_nothing(st6, ids, values, 6, end, entry_said(e));
    lemma_end_comes(st7, ids, values, end);
    assert(st7.advance(1).end_struct() =~= st.advance(value_bytes(entry_value(e)).len()));
}

/// The entries as a writer records them.
pub open spec fn entry_values(entries: Seq<WrittenEntry>) -> Seq<Value> {
    entries.map_values(|e: WrittenEntry| entry_value(e))
}

/// What the entries say.
pub open spec fn entries_said(entries: Seq<WrittenEntry>) -> Seq<EntryView> {
    entries.map_values(|e: WrittenEntry| entry_said(e))
}

proof fn lemma_entries(st: ThriftState, entries: Seq<WrittenEntry>, k: nat, acc: Seq<EntryView>)
    requires
        k <= entries.len(),
        forall|i: int| 0 <= i < entries.len() ==> entry_writable(#[trigger] entries[i]),
        comes_next(st, items_bytes(entry_values(entries), k)),
    ensures
        entries_step(st, (entries.len() - k) as nat, acc) == (
            Ok::<Seq<EntryView>, ErrorView>(acc + entries_said(entries).skip(k as int)),
            st.advance(items_bytes(entry_values(entries), k).len()),
        ),
    decreases entries.len() - k,
{
    let values = entry_values(entries);
    let views = entries_said(entries);
    if k < entries.len() {
        lemma_next_item(st, values, k);
        assert(values[k as int] == entry_value(entries[k as int]));
        lemma_entries_read_back(st, entries[k as int]);
        let next = st.advance(value_bytes(values[k as int]).len());
        lemma_entries(next, entries, k + 1, acc.push(views[k as int]));
        assert(acc.push(views[k as int]) + views.skip((k + 1) as int) =~= acc + views.skip(
            k as int,
        ));
        assert(next.advance(items_bytes(values, k + 1).len()) == st.advance(
            items_bytes(values, k).len(),
        ));
    } else {
        assert(acc + views.skip(k as int) =~= acc);
    }
}

/// A history as a writer records it.
pub open spec fn history_value(entries: Seq<WrittenEntry>) -> Value {
    Value::Struct {
        ids: seq![1i16],
        values: seq![Value::List { of: TType::Struct, items: entry_values(entries) }],
    }
}

/// A history reads back as it was written, every entry in its place.
pub proof fn lemma_histories_read_back(entries: Seq<WrittenEntry>)
    requires
        entries.len() <= u32::MAX,
        forall|i: int| 0 <= i < entries.len() ==> entry_writable(#[trigger] entries[i]),
        value_bytes(history_value(entries)).len() <= usize::MAX,
    ensures
        history_of(value_bytes(history_value(entries))) == Ok::<Seq<EntryView>, ErrorView>(
            entries_said(entries),
        ),
{
    let ids = seq![1i16];
    let list = Value::List { of: TType::Struct, items: entry_values(entries) };
    let values = seq![list];
    let whole = value_bytes(history_value(entries));
    let st = ThriftState::start(whole);
    assert(whole.subrange(0, whole.len() as int) =~= whole);
    let st0 = st.begin_struct();
    let inner = at_value(st0, ids, values, 0);
    let st1 = at_next(st0, ids, values, 0);
    lemma_struct_comes(st, ids, values);
    lemma_field_comes(st0, ids, values, 0, whole.len());
    let front = list_front(TType::Struct, entries.len());
    let body = items_bytes(entry_values(entries), 0);
    assert(value_bytes(list) == front + body);
    let next = inner.advance(front.len());
    lemma_next_after(inner, front, body, next);
    lemma_list_fronts_read_back(inner, TType::Struct, entries.len());
    let none = Seq::<EntryView>::empty();
    lemma_entries(next, entries, 0, none);
    assert(none + entries_said(entries).skip(0) =~= entries_said(entries));
    assert(next.advance(body.len()) == st1);
    lemma_end_comes(st1, ids, values, whole.len());
    assert(history_members_step(st1, entries_said(entries)).0 == Ok::<Seq<EntryView>, ErrorView>(
        entries_said(entries),
    ));
    assert(history_member_step(
        inner,
        FieldHeader { ttype: TType::List, id: 1 },
        none,
    ) == (Ok::<Seq<EntryView>, ErrorView>(entries_said(entries)), st1));
    assert(history_members_step(st0, none) == history_members_step(st1, entries_said(entries)));
}

/// What a writer leaves out stays unsaid: an empty version has no numbers,
/// revision, branch or description, and an empty entry no names, arguments
/// or time.
pub proof fn lemma_missing_parts_stay_unsaid(st: ThriftState)
    requires
        comes_next(st, seq![0u8]),
    ensures
        version_step(st) matches (Ok(v), _) && v.git_rev is None && v.git_branch is None
            && v.git_desc is None && !v.is_release && v.major == 0 && v.minor == 0 && v.patch == 0,
        entry_step(st) matches (Ok(e), _) && e.arguments is None && e.timestamp is None
            && e.library_versions.len() == 0 && e.system_id.len() == 0 && e.compiler_id.len() == 0,
{
    let inner = st.begin_struct();
    assert(comes_next(inner, seq![0u8]));
    crate::metadata::wire::lemma_zero_ends_a_struct(inner);
}

} // verus!
