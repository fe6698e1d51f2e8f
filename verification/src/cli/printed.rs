//! What the reports print, line by line.

use crate::cli::details::{
    history_text, history_texts, metadata_text, names_line, offsets_line, option_names,
    separator_line, table_line, tables_text,
};
use crate::cli::report::{
    block_total, join, join_from, optional_line, payload_total, section_line, section_lines,
    summary_text, unknown_lines, unknown_totals, with_unknown,
};
use crate::format::history::EntryView;
use crate::format::image::ImageView;
use crate::format::sections::RecordView;
use crate::format::types::SectionType;
use crate::fs::offsets::InodeOffsets;
use crate::fs::tree::{TreeView, distinct_from};
use crate::metadata::root::MetadataView;
use crate::text::dec;
use vstd::prelude::*;

verus! {

/// The lines, each with its end.
pub open spec fn printed(lines: Seq<Seq<char>>) -> Seq<char>
    decreases lines.len(),
{
    if lines.len() == 0 {
        Seq::empty()
    } else {
        printed(lines.drop_last()) + lines.last() + seq!['\n']
    }
}

proof fn lemma_print_nothing()
    ensures
        printed(Seq::empty()) == Seq::<char>::empty(),
{
}

proof fn lemma_print_one(line: Seq<char>)
    ensures
        printed(seq![line]) == line + seq!['\n'],
{
    assert(seq![line].drop_last() =~= Seq::<Seq<char>>::empty());
    lemma_print_nothing();
    assert(Seq::<char>::empty() + line =~= line);
}

proof fn lemma_print_more(a: Seq<Seq<char>>, b: Seq<Seq<char>>)
    ensures
        printed(a + b) == printed(a) + printed(b),
    decreases b.len(),
{
    if b.len() == 0 {
        assert(a + b =~= a);
        assert(printed(a) + printed(b) =~= printed(a));
    } else {
        lemma_print_more(a, b.drop_last());
        assert((a + b).drop_last() =~= a + b.drop_last());
        assert((a + b).last() == b.last());
        assert(printed(a + b) =~= printed(a) + printed(b));
    }
}

/// A line with a number behind a label.
pub open spec fn number_line(label: Seq<char>, n: nat, unit: Seq<char>) -> Seq<char> {
    label + dec(n) + unit
}

/// A line that is there only with a number.
pub open spec fn if_known(label: Seq<char>, n: Option<nat>, unit: Seq<char>) -> Seq<Seq<char>> {
    match n {
        Some(n) => seq![number_line(label, n, unit)],
        None => Seq::empty(),
    }
}

/// A line that is there only with a number above zero.
pub open spec fn if_some(label: Seq<char>, n: nat, unit: Seq<char>) -> Seq<Seq<char>> {
    if n == 0 {
        Seq::empty()
    } else {
        seq![number_line(label, n, unit)]
    }
}

proof fn lemma_newlines()
    ensures
        "\n"@ == seq!['\n'],
        " bytes\n"@ == " bytes"@ + seq!['\n'],
        " seconds\n"@ == " seconds"@ + seq!['\n'],
        "Section index: present\n"@ == "Section index: present"@ + seq!['\n'],
        "Metadata tables:\n"@ == "Metadata tables:"@ + seq!['\n'],
        ""@ == Seq::<char>::empty(),
{
    reveal_strlit("\n");
    reveal_strlit(" bytes\n");
    reveal_strlit(" bytes");
    reveal_strlit(" seconds\n");
    reveal_strlit(" seconds");
    reveal_strlit("Section index: present\n");
    reveal_strlit("Section index: present");
    reveal_strlit("Metadata tables:\n");
    reveal_strlit("Metadata tables:");
    reveal_strlit("");
    assert("\n"@ =~= seq!['\n']);
    assert(" bytes\n"@ =~= " bytes"@ + seq!['\n']);
    assert(" seconds\n"@ =~= " seconds"@ + seq!['\n']);
    assert("Section index: present\n"@ =~= "Section index: present"@ + seq!['\n']);
    assert("Metadata tables:\n"@ =~= "Metadata tables:"@ + seq!['\n']);
    assert(""@ =~= Seq::<char>::empty());
}

proof fn lemma_number_line(label: Seq<char>, n: nat, unit: Seq<char>)
    ensures
        printed(seq![number_line(label, n, unit)]) == label + dec(n) + (unit + seq!['\n']),
{
    lemma_print_one(number_line(label, n, unit));
    assert(number_line(label, n, unit) + seq!['\n'] =~= label + dec(n) + (unit + seq!['\n']));
}

proof fn lemma_optional_line(label: Seq<char>, n: Option<nat>, unit: Seq<char>)
    ensures
        printed(if_known(label, n, unit)) == optional_line(label, n, unit + seq!['\n']),
{
    if n is Some {
        lemma_number_line(label, n->Some_0, unit);
    } else {
        lemma_print_nothing();
    }
}

/// The sections of a type.
pub open spec fn of_type(sections: Seq<RecordView>, kind: SectionType) -> Seq<RecordView> {
    sections.filter(|r: RecordView| r.header.section_type == kind)
}

/// The payload bytes of all sections.
pub open spec fn stored_bytes(sections: Seq<RecordView>) -> nat
    decreases sections.len(),
{
    if sections.len() == 0 {
        0
    } else {
        sections.last().header.payload_len as nat + stored_bytes(sections.drop_last())
    }
}

proof fn lemma_totals(sections: Seq<RecordView>, kind: SectionType, n: nat)
    requires
        n <= sections.len(),
    ensures
        payload_total(sections, kind, n) == stored_bytes(of_type(sections.take(n as int), kind)),
        block_total(sections, n) == of_type(sections.take(n as int), SectionType::Block).len(),
    decreases n,
{
    reveal(Seq::filter);
    let now = sections.take(n as int);
    if n > 0 {
        lemma_totals(sections, kind, (n - 1) as nat);
        assert(now.drop_last() =~= sections.take(n - 1));
        assert(now.last() == sections[n - 1]);
        let before = of_type(now.drop_last(), kind);
        assert(before.push(now.last()).drop_last() =~= before);
    }
}

/// What the totals hold after one more section.
proof fn lemma_with_unknown(totals: Seq<(u16, nat)>, value: u16, len: nat, i: nat)
    requires
        i <= totals.len(),
        forall|j: int, k: int|
            0 <= j < k < totals.len() ==> (#[trigger] totals[j]).0 != (#[trigger] totals[k]).0,
        forall|j: int| 0 <= j < i ==> (#[trigger] totals[j]).0 != value,
    ensures
        ({
            let after = with_unknown(totals, value, len, i);
            &&& forall|j: int, k: int|
                0 <= j < k < after.len() ==> (#[trigger] after[j]).0 != (#[trigger] after[k]).0
            &&& exists|j: int| 0 <= j < after.len() && (#[trigger] after[j]).0 == value
            &&& forall|j: int|
                0 <= j < after.len() && (#[trigger] after[j]).0 != value ==> j < totals.len()
                    && after[j] == totals[j]
            &&& forall|j: int|
                0 <= j < after.len() && (#[trigger] after[j]).0 == value ==> (if j < totals.len() {
                    totals[j].0 == value && after[j].1 == totals[j].1 + len
                } else {
                    after[j].1 == len && (forall|k: int|
                        0 <= k < totals.len() ==> (#[trigger] totals[k]).0 != value)
                })
            &&& after.len() >= totals.len()
            &&& forall|j: int|
                0 <= j < totals.len() ==> (#[trigger] totals[j]).0 == after[j].0
        }),
    decreases totals.len() - i,
{
    let after = with_unknown(totals, value, len, i);
    if i >= totals.len() {
        assert(after[totals.len() as int].0 == value);
    } else if totals[i as int].0 == value {
        assert(after[i as int].0 == value);
    } else {
        lemma_with_unknown(totals, value, len, i + 1);
    }
}

/// Every unknown type is listed once, with the payload bytes of all its
/// sections, and nothing else is listed.
pub proof fn lemma_unknown_types_are_listed(sections: Seq<RecordView>, n: nat)
    requires
        n <= sections.len(),
    ensures
        ({
            let totals = unknown_totals(sections, n);
            &&& forall|j: int, k: int|
                0 <= j < k < totals.len() ==> (#[trigger] totals[j]).0 != (#[trigger] totals[k]).0
            &&& forall|j: int|
                0 <= j < totals.len() ==> (#[trigger] totals[j]).1 == stored_bytes(
                    of_type(sections.take(n as int), SectionType::Unknown(totals[j].0)),
                )
            &&& forall|i: int|
                0 <= i < n ==> ((#[trigger] sections[i]).header.section_type matches
                    SectionType::Unknown(value) ==> exists|j: int|
                    0 <= j < totals.len() && (#[trigger] totals[j]).0 == value)
            &&& forall|j: int|
                0 <= j < totals.len() ==> exists|i: int|
                    0 <= i < n && (#[trigger] sections[i]).header.section_type
                        == SectionType::Unknown((#[trigger] totals[j]).0)
        }),
    decreases n,
{
    reveal(Seq::filter);
    let totals = unknown_totals(sections, n);
    let now = sections.take(n as int);
    if n > 0 {
        lemma_unknown_types_are_listed(sections, (n - 1) as nat);
        let before = unknown_totals(sections, (n - 1) as nat);
        let last = sections[n - 1];
        assert(now.drop_last() =~= sections.take(n - 1));
        assert(now.last() == last);
        assert forall|kind: SectionType| stored_bytes(#[trigger] of_type(now, kind))
            == stored_bytes(of_type(now.drop_last(), kind)) + (if last.header.section_type == kind {
            last.header.payload_len as nat
        } else {
            0
        }) by {
            let less = of_type(now.drop_last(), kind);
            assert(less.push(last).drop_last() =~= less);
        }
        if let SectionType::Unknown(value) = last.header.section_type {
            lemma_with_unknown(before, value, last.header.payload_len as nat, 0);
            assert forall|j: int| 0 <= j < totals.len() implies (#[trigger] totals[j]).1
                == stored_bytes(of_type(now, SectionType::Unknown(totals[j].0))) by {
                let kind = SectionType::Unknown(totals[j].0);
                assert(stored_bytes(of_type(now, kind)) >= 0);
                if totals[j].0 == value {
                    if j >= before.len() {
                        lemma_none_of_type(sections, (n - 1) as nat, before, value);
                    } else {
                        assert(before[j].0 == value);
                    }
                } else {
                    assert(totals[j] == before[j]);
                }
            }
            assert forall|i: int| 0 <= i < n implies ((
            #[trigger] sections[i]).header.section_type matches SectionType::Unknown(w) ==> exists|
                j: int,
            |
                0 <= j < totals.len() && (#[trigger] totals[j]).0 == w) by {
                if let SectionType::Unknown(w) = sections[i].header.section_type {
                    if i < n - 1 {
                        let j = choose|j: int|
                            0 <= j < before.len() && (#[trigger] before[j]).0 == w;
                        assert(totals[j].0 == w);
                    }
                }
            }
            assert forall|j: int| 0 <= j < totals.len() implies exists|i: int|
                0 <= i < n && (#[trigger] sections[i]).header.section_type == SectionType::Unknown(
                    (#[trigger] totals[j]).0,
                ) by {
                if totals[j].0 == value {
                    assert(sections[n - 1].header.section_type == SectionType::Unknown(
                        totals[j].0,
                    ));
                } else {
                    assert(totals[j] == before[j]);
                    let i = choose|i: int|
                        0 <= i < n - 1 && (#[trigger] sections[i]).header.section_type
                            == SectionType::Unknown(before[j].0);
                    assert(sections[i].header.section_type == SectionType::Unknown(totals[j].0));
                }
            }
        } else {
            assert(totals == before);
            assert forall|j: int| 0 <= j < totals.len() implies (#[trigger] totals[j]).1
                == stored_bytes(of_type(now, SectionType::Unknown(totals[j].0))) by {
                assert(before[j].1 == stored_bytes(
                    of_type(now.drop_last(), SectionType::Unknown(before[j].0)),
                ));
            }
            assert forall|j: int| 0 <= j < totals.len() implies exists|i: int|
                0 <= i < n && (#[trigger] sections[i]).header.section_type == SectionType::Unknown(
                    (#[trigger] totals[j]).0,
                ) by {
                let i = choose|i: int|
                    0 <= i < n - 1 && (#[trigger] sections[i]).header.section_type
                        == SectionType::Unknown(before[j].0);
                assert(sections[i].header.section_type == SectionType::Unknown(totals[j].0));
            }
        }
    }
}

proof fn lemma_none_of_type(
    sections: Seq<RecordView>,
    n: nat,
    totals: Seq<(u16, nat)>,
    value: u16,
)
    requires
        n <= sections.len(),
        forall|i: int|
            0 <= i < n ==> ((#[trigger] sections[i]).header.section_type matches
                SectionType::Unknown(w) ==> exists|j: int|
                0 <= j < totals.len() && (#[trigger] totals[j]).0 == w),
        forall|j: int| 0 <= j < totals.len() ==> (#[trigger] totals[j]).0 != value,
    ensures
        stored_bytes(of_type(sections.take(n as int), SectionType::Unknown(value))) == 0,
    decreases n,
{
    reveal(Seq::filter);
    if n > 0 {
        lemma_none_of_type(sections, (n - 1) as nat, totals, value);
        let now = sections.take(n as int);
        assert(now.drop_last() =~= sections.take(n - 1));
        assert(now.last() == sections[n - 1]);
    }
}

proof fn lemma_unknown_lines(totals: Seq<(u16, nat)>, i: nat)
    requires
        i <= totals.len(),
    ensures
        unknown_lines(totals, i) == printed(
            Seq::new(
                (totals.len() - i) as nat,
                |k: int|
                    "Unknown section type "@ + dec(totals[i + k].0 as nat) + ": "@ + dec(
                        totals[i + k].1,
                    ) + " bytes"@,
            ),
        ),
    decreases totals.len() - i,
{
    let line = |k: int|
        "Unknown section type "@ + dec(totals[k].0 as nat) + ": "@ + dec(totals[k].1) + " bytes"@;
    let all = Seq::new((totals.len() - i) as nat, |k: int| line(i + k));
    lemma_newlines();
    if i < totals.len() {
        lemma_unknown_lines(totals, i + 1);
        let rest = Seq::new((totals.len() - i - 1) as nat, |k: int| line(i + 1 + k));
        assert(all =~= seq![line(i as int)] + rest);
        lemma_print_more(seq![line(i as int)], rest);
        lemma_print_one(line(i as int));
        assert(rest =~= Seq::new(
            (totals.len() - (i + 1)) as nat,
            |k: int|
                "Unknown section type "@ + dec(totals[(i + 1) + k].0 as nat) + ": "@ + dec(
                    totals[(i + 1) + k].1,
                ) + " bytes"@,
        ));
        assert(unknown_lines(totals, i) =~= line(i as int) + seq!['\n'] + unknown_lines(
            totals,
            i + 1,
        ));
    } else {
        assert(all =~= Seq::empty());
    }
    assert(all =~= Seq::new(
        (totals.len() - i) as nat,
        |k: int|
            "Unknown section type "@ + dec(totals[i + k].0 as nat) + ": "@ + dec(totals[i + k].1)
                + " bytes"@,
    ));
}

/// The line about section `i`: what it is, and where it begins and ends.
pub open spec fn section_says(r: RecordView, i: nat) -> Seq<char> {
    let begin = r.file_offset as nat;
    let len = 64 + r.header.payload_len as nat;
    "  ["@ + dec(i) + "] type="@ + r.header.section_type.text() + " compression="@
        + r.header.compression.text() + " number="@ + dec(r.header.number as nat) + " offset="@
        + dec(begin) + " len="@ + dec(len) + " end="@ + dec(begin + len)
}

proof fn lemma_section_lines(sections: Seq<RecordView>, i: nat)
    requires
        i <= sections.len(),
    ensures
        section_lines(sections, i) == printed(
            Seq::new(
                (sections.len() - i) as nat,
                |k: int| section_says(sections[i + k], (i + k) as nat),
            ),
        ),
    decreases sections.len() - i,
{
    let line = |k: int| section_says(sections[k], k as nat);
    let all = Seq::new((sections.len() - i) as nat, |k: int| line(i + k));
    lemma_newlines();
    if i < sections.len() {
        lemma_section_lines(sections, i + 1);
        let rest = Seq::new((sections.len() - i - 1) as nat, |k: int| line(i + 1 + k));
        assert(all =~= seq![line(i as int)] + rest);
        lemma_print_more(seq![line(i as int)], rest);
        lemma_print_one(line(i as int));
        assert(rest =~= Seq::new(
            (sections.len() - (i + 1)) as nat,
            |k: int| section_says(sections[(i + 1) + k], ((i + 1) + k) as nat),
        ));
        assert(section_line(sections[i as int], i) =~= line(i as int) + seq!['\n']);
    } else {
        assert(all =~= Seq::empty());
    }
    assert(all =~= Seq::new(
        (sections.len() - i) as nat,
        |k: int| section_says(sections[i + k], (i + k) as nat),
    ));
}

/// The lines of a summary: the version of the first section, the size of
/// the image, how many sections and blocks it has, what its blocks,
/// metadata, schema and history take, then unknown sections, what stands in
/// front of the image, each section where that is asked for, and whether
/// there is an index.
pub open spec fn summary_lines(
    v: ImageView,
    metadata: Option<nat>,
    schema: Option<nat>,
    detail: u32,
) -> Seq<Seq<char>> {
    let s = v.sections;
    let unknown = unknown_totals(s, s.len());
    (if s.len() == 0 {
        Seq::empty()
    } else {
        seq![
            "DwarFS version: "@ + dec(s[0].header.major as nat) + "."@ + dec(
                s[0].header.minor as nat,
            ),
        ]
    }) + seq![number_line("DwarFS image: "@, v.bytes.len(), " bytes"@)] + seq![
        number_line("Sections: "@, s.len(), ""@),
    ] + seq![number_line("Block count: "@, of_type(s, SectionType::Block).len(), ""@)] + seq![
        number_line(
            "Compressed block size: "@,
            stored_bytes(of_type(s, SectionType::Block)),
            " bytes"@,
        ),
    ] + seq![
        number_line(
            "Compressed metadata size: "@,
            stored_bytes(of_type(s, SectionType::MetadataV2)),
            " bytes"@,
        ),
    ] + if_known("Uncompressed metadata size: "@, metadata, " bytes"@) + seq![
        number_line(
            "Compressed schema size: "@,
            stored_bytes(of_type(s, SectionType::MetadataV2Schema)),
            " bytes"@,
        ),
    ] + if_known("Uncompressed schema size: "@, schema, " bytes"@) + if_some(
        "Compressed history size: "@,
        stored_bytes(of_type(s, SectionType::History)),
        " bytes"@,
    ) + Seq::new(
        unknown.len(),
        |k: int|
            "Unknown section type "@ + dec(unknown[k].0 as nat) + ": "@ + dec(unknown[k].1)
                + " bytes"@,
    ) + if_some("Header prefix: "@, v.base as nat, " bytes"@) + (if detail >= 2 {
        Seq::new(s.len(), |k: int| section_says(s[k], k as nat))
    } else {
        Seq::empty()
    }) + (if v.index is Some {
        seq!["Section index: present"@]
    } else {
        Seq::empty()
    })
}

proof fn lemma_if_some(label: Seq<char>, n: nat, unit: Seq<char>)
    ensures
        printed(if_some(label, n, unit)) == optional_line(
            label,
            crate::cli::report::nonzero(n),
            unit + seq!['\n'],
        ),
{
    if n > 0 {
        lemma_number_line(label, n, unit);
    } else {
        lemma_print_nothing();
    }
}

/// A summary prints its lines and nothing else. The sizes are those of the
/// sections of each type taken together.
pub proof fn lemma_summary_prints_its_lines(
    v: ImageView,
    metadata: Option<nat>,
    schema: Option<nat>,
    detail: u32,
)
    ensures
        summary_text(v, metadata, schema, detail) == printed(
            summary_lines(v, metadata, schema, detail),
        ),
{
    let s = v.sections;
    let n = s.len();
    assert(s.take(n as int) =~= s);
    lemma_newlines();
    lemma_print_nothing();
    lemma_totals(s, SectionType::Block, n);
    lemma_totals(s, SectionType::MetadataV2, n);
    lemma_totals(s, SectionType::MetadataV2Schema, n);
    lemma_totals(s, SectionType::History, n);
    let unknown = unknown_totals(s, n);
    let p0 = if s.len() == 0 {
        Seq::empty()
    } else {
        seq![
            "DwarFS version: "@ + dec(s[0].header.major as nat) + "."@ + dec(
                s[0].header.minor as nat,
            ),
        ]
    };
    if s.len() > 0 {
        lemma_print_one(p0[0]);
    }
    let p1 = seq![number_line("DwarFS image: "@, v.bytes.len(), " bytes"@)];
    lemma_number_line("DwarFS image: "@, v.bytes.len(), " bytes"@);
    let p2 = seq![number_line("Sections: "@, s.len(), ""@)];
    lemma_number_line("Sections: "@, s.len(), ""@);
    let blocks = of_type(s, SectionType::Block);
    let p3 = seq![number_line("Block count: "@, blocks.len(), ""@)];
    lemma_number_line("Block count: "@, blocks.len(), ""@);
    let p4 = seq![number_line("Compressed block size: "@, stored_bytes(blocks), " bytes"@)];
    lemma_number_line("Compressed block size: "@, stored_bytes(blocks), " bytes"@);
    let m = stored_bytes(of_type(s, SectionType::MetadataV2));
    let p5 = seq![number_line("Compressed metadata size: "@, m, " bytes"@)];
    lemma_number_line("Compressed metadata size: "@, m, " bytes"@);
    let p6 = if_known("Uncompressed metadata size: "@, metadata, " bytes"@);
    lemma_optional_line("Uncompressed metadata size: "@, metadata, " bytes"@);
    let c = stored_bytes(of_type(s, SectionType::MetadataV2Schema));
    let p7 = seq![number_line("Compressed schema size: "@, c, " bytes"@)];
    lemma_number_line("Compressed schema size: "@, c, " bytes"@);
    let p8 = if_known("Uncompressed schema size: "@, schema, " bytes"@);
    lemma_optional_line("Uncompressed schema size: "@, schema, " bytes"@);
    let h = stored_bytes(of_type(s, SectionType::History));
    let p9 = if_some("Compressed history size: "@, h, " bytes"@);
    lemma_if_some("Compressed history size: "@, h, " bytes"@);
    let p10 = Seq::new(
        unknown.len(),
        |k: int|
            "Unknown section type "@ + dec(unknown[k].0 as nat) + ": "@ + dec(unknown[k].1)
                + " bytes"@,
    );
    lemma_unknown_lines(unknown, 0);
    assert(p10 =~= Seq::new(
        (unknown.len() - 0nat) as nat,
        |k: int|
            "Unknown section type "@ + dec(unknown[0nat + k].0 as nat) + ": "@ + dec(
                unknown[0nat + k].1,
            ) + " bytes"@,
    ));
    let p11 = if_some("Header prefix: "@, v.base as nat, " bytes"@);
    lemma_if_some("Header prefix: "@, v.base as nat, " bytes"@);
    let p12 = if detail >= 2 {
        Seq::new(s.len(), |k: int| section_says(s[k], k as nat))
    } else {
        Seq::empty()
    };
    if detail >= 2 {
        lemma_section_lines(s, 0);
        assert(p12 =~= Seq::new(
            (s.len() - 0nat) as nat,
            |k: int| section_says(s[0nat + k], (0nat + k) as nat),
        ));
    }
    let p13 = if v.index is Some {
        seq!["Section index: present"@]
    } else {
        Seq::empty()
    };
    if v.index is Some {
        lemma_print_one("Section index: present"@);
    }
    lemma_print_more(p0, p1);
    lemma_print_more(p0 + p1, p2);
    lemma_print_more(p0 + p1 + p2, p3);
    lemma_print_more(p0 + p1 + p2 + p3, p4);
    lemma_print_more(p0 + p1 + p2 + p3 + p4, p5);
    lemma_print_more(p0 + p1 + p2 + p3 + p4 + p5, p6);
    lemma_print_more(p0 + p1 + p2 + p3 + p4 + p5 + p6, p7);
    lemma_print_more(p0 + p1 + p2 + p3 + p4 + p5 + p6 + p7, p8);
    lemma_print_more(p0 + p1 + p2 + p3 + p4 + p5 + p6 + p7 + p8, p9);
    lemma_print_more(p0 + p1 + p2 + p3 + p4 + p5 + p6 + p7 + p8 + p9, p10);
    lemma_print_more(p0 + p1 + p2 + p3 + p4 + p5 + p6 + p7 + p8 + p9 + p10, p11);
    lemma_print_more(p0 + p1 + p2 + p3 + p4 + p5 + p6 + p7 + p8 + p9 + p10 + p11, p12);
    lemma_print_more(p0 + p1 + p2 + p3 + p4 + p5 + p6 + p7 + p8 + p9 + p10 + p11 + p12, p13);
}

/// Joined texts stand in order, with the separator between each two.
pub proof fn lemma_joined_texts(parts: Seq<Seq<char>>, last: Seq<char>, separator: Seq<char>)
    ensures
        join(Seq::empty(), separator) == Seq::<char>::empty(),
        join(seq![last], separator) == last,
        parts.len() > 0 ==> join(parts.push(last), separator) == join(parts, separator) + separator
            + last,
{
    assert(join_from(seq![last], separator, 1) == Seq::<char>::empty());
    assert(last + Seq::<char>::empty() =~= last);
    if parts.len() > 0 {
        lemma_join_more(parts, last, separator, 0);
    }
}

proof fn lemma_join_more(parts: Seq<Seq<char>>, last: Seq<char>, separator: Seq<char>, i: nat)
    requires
        i <= parts.len(),
        parts.len() > 0,
    ensures
        join_from(parts.push(last), separator, i) == join_from(parts, separator, i) + separator
            + last,
    decreases parts.len() - i,
{
    let more = parts.push(last);
    if i < parts.len() {
        lemma_join_more(parts, last, separator, i + 1);
        assert(more[i as int] == parts[i as int]);
        assert(join_from(more, separator, i) =~= join_from(parts, separator, i) + separator + last);
    } else {
        assert(join_from(more, separator, i + 1) == Seq::<char>::empty());
        assert(join_from(more, separator, i) =~= join_from(parts, separator, i) + separator + last);
    }
}

/// A line of names, where there are any.
pub open spec fn if_any(label: Seq<char>, names: Seq<Seq<char>>) -> Seq<Seq<char>> {
    if names.len() == 0 {
        Seq::empty()
    } else {
        seq![label + join(names, ", "@)]
    }
}

proof fn lemma_names_line(label: Seq<char>, names: Seq<Seq<char>>)
    ensures
        printed(if_any(label, names)) == names_line(label, names),
{
    lemma_newlines();
    if names.len() == 0 {
        lemma_print_nothing();
    } else {
        lemma_print_one(label + join(names, ", "@));
    }
}

/// The line about the path separator: there where the number recorded is
/// that of a character.
pub open spec fn separator_says(separator: Option<u32>) -> Seq<Seq<char>> {
    match separator {
        Some(n) => if n < 0xd800 || (0xe000 <= n && n <= 0x10ffff) {
            seq!["Preferred path separator: "@ + seq![n as char]]
        } else {
            Seq::empty()
        },
        None => Seq::empty(),
    }
}

/// The lines about the metadata, over what the tables record.
pub open spec fn metadata_lines(v: TreeView) -> Seq<Seq<char>> {
    let t = v.tables;
    seq![number_line("Block size: "@, t.block_size as nat, " bytes"@)] + if_any(
        "Block categories: "@,
        distinct_from(t.block_category_names, 0, Seq::empty()),
    ) + seq![number_line("Inode count: "@, t.inodes.len(), ""@)] + seq![
        number_line("Original filesystem size: "@, t.total_fs_size as nat, " bytes"@),
    ] + (match t.total_allocated_fs_size {
        Some(n) => seq![number_line("Original allocated size: "@, n as nat, " bytes"@)],
        None => Seq::empty(),
    }) + if_any("Features: "@, t.features) + if_any("Options: "@, option_names(t.options)) + seq![
        number_line(
            "Time resolution: "@,
            match t.options.time_resolution_sec {
                Some(n) => n as nat,
                None => 1,
            },
            " seconds"@,
        ),
    ] + separator_says(t.preferred_path_separator)
}

/// The report on the metadata prints its lines and nothing else.
pub proof fn lemma_metadata_prints_its_lines(v: TreeView)
    ensures
        metadata_text(v) == printed(metadata_lines(v)),
{
    let t = v.tables;
    lemma_newlines();
    lemma_print_nothing();
    let p0 = seq![number_line("Block size: "@, t.block_size as nat, " bytes"@)];
    lemma_number_line("Block size: "@, t.block_size as nat, " bytes"@);
    let names = distinct_from(t.block_category_names, 0, Seq::empty());
    let p1 = if_any("Block categories: "@, names);
    lemma_names_line("Block categories: "@, names);
    let p2 = seq![number_line("Inode count: "@, t.inodes.len(), ""@)];
    lemma_number_line("Inode count: "@, t.inodes.len(), ""@);
    let p3 = seq![number_line("Original filesystem size: "@, t.total_fs_size as nat, " bytes"@)];
    lemma_number_line("Original filesystem size: "@, t.total_fs_size as nat, " bytes"@);
    let p4 = match t.total_allocated_fs_size {
        Some(n) => seq![number_line("Original allocated size: "@, n as nat, " bytes"@)],
        None => Seq::empty(),
    };
    if let Some(n) = t.total_allocated_fs_size {
        lemma_number_line("Original allocated size: "@, n as nat, " bytes"@);
    }
    let p5 = if_any("Features: "@, t.features);
    lemma_names_line("Features: "@, t.features);
    let p6 = if_any("Options: "@, option_names(t.options));
    lemma_names_line("Options: "@, option_names(t.options));
    let resolution: nat = match t.options.time_resolution_sec {
        Some(n) => n as nat,
        None => 1,
    };
    let p7 = seq![number_line("Time resolution: "@, resolution, " seconds"@)];
    lemma_number_line("Time resolution: "@, resolution, " seconds"@);
    let p8 = separator_says(t.preferred_path_separator);
    assert(printed(p8) == separator_line(t.preferred_path_separator)) by {
        if p8.len() > 0 {
            let n = t.preferred_path_separator->Some_0;
            lemma_print_one("Preferred path separator: "@ + seq![n as char]);
            assert("Preferred path separator: "@.push(n as char) =~= "Preferred path separator: "@
                + seq![n as char]);
        }
    }
    lemma_print_more(p0, p1);
    lemma_print_more(p0 + p1, p2);
    lemma_print_more(p0 + p1 + p2, p3);
    lemma_print_more(p0 + p1 + p2 + p3, p4);
    lemma_print_more(p0 + p1 + p2 + p3 + p4, p5);
    lemma_print_more(p0 + p1 + p2 + p3 + p4 + p5, p6);
    lemma_print_more(p0 + p1 + p2 + p3 + p4 + p5 + p6, p7);
    lemma_print_more(p0 + p1 + p2 + p3 + p4 + p5 + p6 + p7, p8);
}

/// A number behind its name.
pub open spec fn named(name: Seq<char>, n: u32) -> Seq<char> {
    name + seq!['='] + dec(n as nat)
}

/// The line about the inode partitions names where each kind of inode
/// begins.
pub proof fn lemma_partitions_are_named(o: InodeOffsets)
    ensures
        offsets_line(o) == printed(
            seq![
                join(
                    seq![
                        "Inode offsets:"@,
                        named("dir"@, o.dir_offset),
                        named("symlink"@, o.symlink_offset),
                        named("file"@, o.file_offset),
                        named("shared"@, o.shared_file_offset),
                        named("device"@, o.device_offset),
                        named("special"@, o.special_offset),
                    ],
                    " "@,
                ),
            ],
        ),
{
    let parts = seq![
        "Inode offsets:"@,
        named("dir"@, o.dir_offset),
        named("symlink"@, o.symlink_offset),
        named("file"@, o.file_offset),
        named("shared"@, o.shared_file_offset),
        named("device"@, o.device_offset),
        named("special"@, o.special_offset),
    ];
    lemma_newlines();
    lemma_print_one(join(parts, " "@));
    reveal_with_fuel(join_from, 8);
    assert(join(parts, " "@) + seq!['\n'] =~= offsets_line(o)) by {
        reveal_strlit("Inode offsets:");
        reveal_strlit("Inode offsets: dir=");
        reveal_strlit("dir");
        reveal_strlit(" symlink=");
        reveal_strlit("symlink");
        reveal_strlit(" file=");
        reveal_strlit("file");
        reveal_strlit(" shared=");
        reveal_strlit("shared");
        reveal_strlit(" device=");
        reveal_strlit("device");
        reveal_strlit(" special=");
        reveal_strlit("special");
        reveal_strlit(" ");
        assert("Inode offsets: dir="@ =~= "Inode offsets:"@ + " "@ + "dir"@ + seq!['=']);
        assert(" symlink="@ =~= " "@ + "symlink"@ + seq!['=']);
        assert(" file="@ =~= " "@ + "file"@ + seq!['=']);
        assert(" shared="@ =~= " "@ + "shared"@ + seq!['=']);
        assert(" device="@ =~= " "@ + "device"@ + seq!['=']);
        assert(" special="@ =~= " "@ + "special"@ + seq!['=']);
        lemma_partition_text(
            "Inode offsets:"@,
            "dir"@,
            dec(o.dir_offset as nat),
            "symlink"@,
            dec(o.symlink_offset as nat),
            "file"@,
            dec(o.file_offset as nat),
            "shared"@,
            dec(o.shared_file_offset as nat),
            "device"@,
            dec(o.device_offset as nat),
            "special"@,
            dec(o.special_offset as nat),
            " "@,
        );
    }
}

#[verifier::rlimit(40)]
proof fn lemma_partition_text(
    front: Seq<char>,
    n1: Seq<char>,
    d1: Seq<char>,
    n2: Seq<char>,
    d2: Seq<char>,
    n3: Seq<char>,
    d3: Seq<char>,
    n4: Seq<char>,
    d4: Seq<char>,
    n5: Seq<char>,
    d5: Seq<char>,
    n6: Seq<char>,
    d6: Seq<char>,
    sp: Seq<char>,
)
    ensures
        ({
            let eq = seq!['='];
            (front + sp + n1 + eq) + d1 + (sp + n2 + eq) + d2 + (sp + n3 + eq) + d3 + (sp + n4
                + eq) + d4 + (sp + n5 + eq) + d5 + (sp + n6 + eq) + d6 == front + (sp + (n1 + eq
                + d1) + (sp + (n2 + eq + d2) + (sp + (n3 + eq + d3) + (sp + (n4 + eq + d4) + (sp + (
            n5 + eq + d5) + (sp + (n6 + eq + d6) + Seq::empty()))))))
        }),
{
    let eq = seq!['='];
    let a = (front + sp + n1 + eq) + d1 + (sp + n2 + eq) + d2 + (sp + n3 + eq) + d3 + (sp + n4
        + eq) + d4 + (sp + n5 + eq) + d5 + (sp + n6 + eq) + d6;
    let b = front + (sp + (n1 + eq + d1) + (sp + (n2 + eq + d2) + (sp + (n3 + eq + d3) + (sp + (n4
        + eq + d4) + (sp + (n5 + eq + d5) + (sp + (n6 + eq + d6) + Seq::empty()))))));
    assert(a =~= b);
}

/// The line about a table: its name, how many entries it has, and the bytes
/// that their bits take, the last one rounded up.
pub proof fn lemma_table_line_counts_bytes(m: MetadataView, id: i16, name: Seq<char>)
    requires
        name.len() <= 20,
    ensures
        match m.table_size(id) {
            None => table_line(m, id, name).len() == 0,
            Some((count, bits)) => exists|a: nat, b: nat, c: nat, bytes: nat|
                #![trigger spaces(a), spaces(b), spaces(c), dec(bytes)]
                table_line(m, id, name) == "  "@ + name + spaces(a) + " "@ + spaces(b) + dec(
                    count as nat,
                ) + " entries "@ + spaces(c) + dec(bytes) + " bytes\n"@ && 8 * (bytes - 1) < count
                    * bits <= 8 * bytes && name.len() + a == 20,
        },
{
    reveal(table_line);
    if let Some((count, bits)) = m.table_size(id) {
        let total = count as nat * bits as nat;
        let bytes = (total + 7) / 8;
        let a = (20 - name.len()) as nat;
        let cd = dec(count as nat);
        let bd = dec(bytes);
        let b: nat = if cd.len() < 10 {
            (10 - cd.len()) as nat
        } else {
            0
        };
        let c: nat = if bd.len() < 10 {
            (10 - bd.len()) as nat
        } else {
            0
        };
        assert(total == count * bits);
        assert(table_line(m, id, name) =~= "  "@ + name + spaces(a) + " "@ + spaces(b) + cd
            + " entries "@ + spaces(c) + dec(bytes) + " bytes\n"@);
    }
}

/// The tables that a report lists, by their numbers and names.
pub open spec fn listed_tables() -> Seq<(i16, Seq<char>)> {
    seq![
        (1i16, "chunks"@),
        (2i16, "directories"@),
        (3i16, "inodes"@),
        (4i16, "chunk_table"@),
        (6i16, "symlink_table"@),
        (7i16, "uids"@),
        (8i16, "gids"@),
        (9i16, "modes"@),
        (17i16, "devices"@),
        (19i16, "dir_entries"@),
        (20i16, "shared_files_table"@),
        (29i16, "block_categories"@),
        (35i16, "large_hole_size"@),
    ]
}

/// The lines about the first `n` of the tables.
pub open spec fn table_lines(m: MetadataView, tables: Seq<(i16, Seq<char>)>, n: nat) -> Seq<char>
    decreases n,
{
    if n == 0 {
        "Metadata tables:\n"@
    } else {
        table_lines(m, tables, (n - 1) as nat) + table_line(m, tables[n - 1].0, tables[n - 1].1)
    }
}

/// The report on the tables lists each of them under its own name.
pub proof fn lemma_tables_are_listed(m: MetadataView)
    ensures
        tables_text(m) == table_lines(m, listed_tables(), 13),
{
    let t = listed_tables();
    assert(table_lines(m, t, 0) == "Metadata tables:\n"@);
    assert(table_lines(m, t, 1) == "Metadata tables:\n"@ + table_line(m, 1, "chunks"@));
    assert(table_lines(m, t, 2) == table_lines(m, t, 1) + table_line(m, 2, "directories"@));
    assert(table_lines(m, t, 3) == table_lines(m, t, 2) + table_line(m, 3, "inodes"@));
    assert(table_lines(m, t, 4) == table_lines(m, t, 3) + table_line(m, 4, "chunk_table"@));
    assert(table_lines(m, t, 5) == table_lines(m, t, 4) + table_line(m, 6, "symlink_table"@));
    assert(table_lines(m, t, 6) == table_lines(m, t, 5) + table_line(m, 7, "uids"@));
    assert(table_lines(m, t, 7) == table_lines(m, t, 6) + table_line(m, 8, "gids"@));
    assert(table_lines(m, t, 8) == table_lines(m, t, 7) + table_line(m, 9, "modes"@));
    assert(table_lines(m, t, 9) == table_lines(m, t, 8) + table_line(m, 17, "devices"@));
    assert(table_lines(m, t, 10) == table_lines(m, t, 9) + table_line(m, 19, "dir_entries"@));
    assert(table_lines(m, t, 11) == table_lines(m, t, 10) + table_line(
        m,
        20,
        "shared_files_table"@,
    ));
    assert(table_lines(m, t, 12) == table_lines(m, t, 11) + table_line(m, 29, "block_categories"@));
    assert(table_lines(m, t, 13) == table_lines(m, t, 12) + table_line(m, 35, "large_hole_size"@));
}

/// A run of spaces.
pub open spec fn spaces(n: nat) -> Seq<char> {
    Seq::new(n, |i: int| ' ')
}

/// The lines of a history entry: who wrote the image where and with what,
/// then the time and the arguments where they were recorded.
pub open spec fn history_lines(e: EntryView) -> Seq<Seq<char>> {
    seq![
        "History: "@ + dec(e.version.major as nat) + "."@ + dec(e.version.minor as nat) + "."@
            + dec(e.version.patch as nat) + " on "@ + e.system_id + " built with "@
            + e.compiler_id,
    ] + (match e.timestamp {
        Some(n) => seq![number_line("  created on: "@, n as nat, ""@)],
        None => Seq::empty(),
    }) + (match e.arguments {
        Some(args) => seq!["  args: "@ + join(args, " "@)],
        None => Seq::empty(),
    })
}

/// The report on a history prints the lines of each entry in turn.
pub proof fn lemma_history_prints_its_lines(entries: Seq<EntryView>, i: nat)
    requires
        i < entries.len(),
    ensures
        history_text(entries[i as int]) == printed(history_lines(entries[i as int])),
        history_texts(entries, i) == printed(history_lines(entries[i as int])) + history_texts(
            entries,
            i + 1,
        ),
        history_texts(entries, entries.len()) == Seq::<char>::empty(),
{
    let e = entries[i as int];
    lemma_newlines();
    lemma_print_nothing();
    let p0 = seq![
        "History: "@ + dec(e.version.major as nat) + "."@ + dec(e.version.minor as nat) + "."@
            + dec(e.version.patch as nat) + " on "@ + e.system_id + " built with "@
            + e.compiler_id,
    ];
    lemma_print_one(p0[0]);
    let p1 = match e.timestamp {
        Some(n) => seq![number_line("  created on: "@, n as nat, ""@)],
        None => Seq::empty(),
    };
    if let Some(n) = e.timestamp {
        lemma_number_line("  created on: "@, n as nat, ""@);
        assert(""@ + seq!['\n'] =~= seq!['\n']);
    }
    let p2 = match e.arguments {
        Some(args) => seq!["  args: "@ + join(args, " "@)],
        None => Seq::empty(),
    };
    if let Some(args) = e.arguments {
        lemma_print_one("  args: "@ + join(args, " "@));
    }
    lemma_print_more(p0, p1);
    lemma_print_more(p0 + p1, p2);
}

} // verus!
