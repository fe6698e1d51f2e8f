//! Human-readable reports on an image.

use crate::format::image::{
    Image, ImageView, first_section, section_decoded,
};
use crate::format::sections::{RecordView, SectionRecord, record_views};
use crate::format::source::ImageSource;
use crate::format::types::SectionType;
use crate::metadata::root::texts;
use crate::text::{Text, dec};
use vstd::prelude::*;

verus! {

/// Texts with a separator between them, from index `i` on.
pub open spec fn join_from(parts: Seq<Seq<char>>, separator: Seq<char>, i: nat) -> Seq<char>
    decreases parts.len() - i,
{
    if i >= parts.len() {
        Seq::empty()
    } else if i == 0 {
        parts[0] + join_from(parts, separator, 1)
    } else {
        separator + parts[i as int] + join_from(parts, separator, i + 1)
    }
}

/// Texts with a separator between them.
pub open spec fn join(parts: Seq<Seq<char>>, separator: Seq<char>) -> Seq<char> {
    join_from(parts, separator, 0)
}

/// The texts behind borrowed strings.
pub open spec fn str_views(v: Seq<&str>) -> Seq<Seq<char>> {
    v.map_values(|s: &str| s@)
}

/// Append texts with a separator between them.
pub fn push_joined(t: Text, parts: &Vec<&str>, separator: &str) -> (r: Text)
    ensures
        r@ == t@ + join(str_views(parts@), separator@),
{
    let ghost start = t@;
    let ghost all = str_views(parts@);
    let mut out = t;
    let mut i: usize = 0;
    assert(start + Seq::<char>::empty() =~= start);
    while i < parts.len()
        invariant
            i <= parts@.len(),
            all == str_views(parts@),
            start + join(all, separator@) == out@ + join_from(all, separator@, i as nat),
        decreases parts@.len() - i,
    {
        assert(all[i as int] == parts@[i as int]@);
        let ghost before = out@;
        let ghost rest = join_from(all, separator@, (i + 1) as nat);
        if i > 0 {
            out = out.str(separator).str(parts[i]);
            assert(before + (separator@ + all[i as int] + rest) =~= out@ + rest);
        } else {
            out = out.str(parts[i]);
            assert(before + (all[0] + rest) =~= out@ + rest);
        }
        i = i + 1;
    }
    assert(out@ + Seq::<char>::empty() =~= out@);
    out
}

/// The string slices of owned strings.
pub fn borrow_all(v: &[String]) -> (r: Vec<&str>)
    ensures
        str_views(r@) == texts(v@),
{
    let mut out: Vec<&str> = Vec::new();
    let mut i: usize = 0;
    while i < v.len()
        invariant
            i <= v@.len() == texts(v@).len(),
            out@.len() == i,
            forall|j: int| 0 <= j < i ==> (#[trigger] out@[j])@ == v@[j]@,
        decreases v@.len() - i,
    {
        out.push(v[i].as_str());
        i = i + 1;
    }
    assert(str_views(out@) =~= texts(v@));
    out
}

/// The payload bytes of the first `n` sections of a type.
pub open spec fn payload_total(sections: Seq<RecordView>, kind: SectionType, n: nat) -> nat
    decreases n,
{
    if n == 0 {
        0
    } else {
        payload_total(sections, kind, (n - 1) as nat) + (if sections[n - 1].header.section_type
            == kind {
            sections[n - 1].header.payload_len as nat
        } else {
            0
        })
    }
}

/// The number of block sections among the first `n`.
pub open spec fn block_total(sections: Seq<RecordView>, n: nat) -> nat
    decreases n,
{
    if n == 0 {
        0
    } else {
        block_total(sections, (n - 1) as nat) + (if sections[n - 1].header.section_type
            == SectionType::Block {
            1nat
        } else {
            0
        })
    }
}

/// The sections among the first `n` whose type is unknown, each type once
/// with the payload bytes of all its sections, in order of appearance.
pub open spec fn unknown_totals(sections: Seq<RecordView>, n: nat) -> Seq<(u16, nat)>
    decreases n,
{
    if n == 0 {
        Seq::empty()
    } else {
        let before = unknown_totals(sections, (n - 1) as nat);
        match sections[n - 1].header.section_type {
            SectionType::Unknown(value) => with_unknown(
                before,
                value,
                sections[n - 1].header.payload_len as nat,
                0,
            ),
            _ => before,
        }
    }
}

/// The totals after `len` more bytes of an unknown type.
pub open spec fn with_unknown(totals: Seq<(u16, nat)>, value: u16, len: nat, i: nat) -> Seq<
    (u16, nat),
>
    decreases totals.len() - i,
{
    if i >= totals.len() {
        totals.push((value, len))
    } else if totals[i as int].0 == value {
        totals.update(i as int, (value, totals[i as int].1 + len))
    } else {
        with_unknown(totals, value, len, i + 1)
    }
}

/// The decoded size of the first section of a type, when it decodes.
pub open spec fn decoded_size(v: ImageView, kind: SectionType) -> Option<nat> {
    match first_section(v.sections, kind) {
        None => None,
        Some(record) => match section_decoded(v.bytes, record, 0x4000_0000) {
            Err(_) => None,
            Ok(bytes) => Some(bytes.len()),
        },
    }
}

/// The line about a section.
pub open spec fn section_line(r: RecordView, i: nat) -> Seq<char> {
    "  ["@ + dec(i) + "] type="@ + r.header.section_type.text() + " compression="@
        + r.header.compression.text() + " number="@ + dec(r.header.number as nat) + " offset="@
        + dec(r.file_offset as nat) + " len="@ + dec((64 + r.header.payload_len) as nat) + " end="@
        + dec((r.file_offset + 64 + r.header.payload_len) as nat) + "\n"@
}

/// The lines about the sections from index `i` on.
pub open spec fn section_lines(sections: Seq<RecordView>, i: nat) -> Seq<char>
    decreases sections.len() - i,
{
    if i >= sections.len() {
        Seq::empty()
    } else {
        section_line(sections[i as int], i) + section_lines(sections, i + 1)
    }
}

/// The lines about unknown section types from index `i` on.
pub open spec fn unknown_lines(totals: Seq<(u16, nat)>, i: nat) -> Seq<char>
    decreases totals.len() - i,
{
    if i >= totals.len() {
        Seq::empty()
    } else {
        "Unknown section type "@ + dec(totals[i as int].0 as nat) + ": "@ + dec(
            totals[i as int].1,
        ) + " bytes\n"@ + unknown_lines(totals, i + 1)
    }
}

/// A line that is there only with a number.
pub open spec fn optional_line(label: Seq<char>, n: Option<nat>, unit: Seq<char>) -> Seq<char> {
    match n {
        Some(n) => label + dec(n) + unit,
        None => Seq::empty(),
    }
}

/// A line that is there only for a number other than zero.
pub open spec fn nonzero(n: nat) -> Option<nat> {
    if n > 0 {
        Some(n)
    } else {
        None
    }
}

/// The summary of an image's sections, given the decoded sizes of the
/// metadata and of its schema.
pub open spec fn summary_text(
    v: ImageView,
    metadata: Option<nat>,
    schema: Option<nat>,
    detail: u32,
) -> Seq<char> {
    let s = v.sections;
    let n = s.len();
    (if n > 0 {
        "DwarFS version: "@ + dec(s[0].header.major as nat) + "."@ + dec(s[0].header.minor as nat)
            + "\n"@
    } else {
        Seq::empty()
    }) + ("DwarFS image: "@ + dec(v.bytes.len()) + " bytes\n"@) + ("Sections: "@ + dec(n) + "\n"@)
        + ("Block count: "@ + dec(block_total(s, n)) + "\n"@) + ("Compressed block size: "@ + dec(
        payload_total(s, SectionType::Block, n),
    ) + " bytes\n"@) + ("Compressed metadata size: "@ + dec(
        payload_total(s, SectionType::MetadataV2, n),
    ) + " bytes\n"@) + optional_line("Uncompressed metadata size: "@, metadata, " bytes\n"@) + (
    "Compressed schema size: "@ + dec(payload_total(s, SectionType::MetadataV2Schema, n))
        + " bytes\n"@) + optional_line("Uncompressed schema size: "@, schema, " bytes\n"@)
        + optional_line(
        "Compressed history size: "@,
        nonzero(payload_total(s, SectionType::History, n)),
        " bytes\n"@,
    ) + unknown_lines(unknown_totals(s, n), 0) + optional_line(
        "Header prefix: "@,
        nonzero(v.base as nat),
        " bytes\n"@,
    ) + (if detail >= 2 {
        section_lines(s, 0)
    } else {
        Seq::empty()
    }) + (if v.index is Some {
        "Section index: present\n"@
    } else {
        Seq::empty()
    })
}

fn push_optional(t: Text, label: &str, n: Option<u128>, unit: &str) -> (r: Text)
    ensures
        r@ == t@ + optional_line(
            label@,
            match n {
                Some(n) => Some(n as nat),
                None => None,
            },
            unit@,
        ),
{
    match n {
        Some(n) => {
            let ghost start = t@;
            let out = t.str(label).wide(n).str(unit);
            assert(out@ =~= start + (label@ + dec(n as nat) + unit@));
            out
        },
        None => {
            assert(t@ + Seq::<char>::empty() =~= t@);
            t
        },
    }
}

fn push_line(t: Text, label: &str, n: u128, unit: &str) -> (r: Text)
    ensures
        r@ == t@ + (label@ + dec(n as nat) + unit@),
{
    let ghost start = t@;
    let out = t.str(label).wide(n).str(unit);
    assert(out@ =~= start + (label@ + dec(n as nat) + unit@));
    out
}

/// Payload bytes of the sections of a type.
fn total_payload(records: &[SectionRecord], kind: SectionType) -> (r: u128)
    ensures
        r == payload_total(record_views(records@), kind, records@.len()),
{
    let count: usize = records.len();
    let mut total: u128 = 0;
    let mut i: usize = 0;
    while i < count
        invariant
            i <= count == records@.len(),
            total == payload_total(record_views(records@), kind, i as nat),
            total <= i * 0xffff_ffff_ffff_ffff,
        decreases count - i,
    {
        assert(i * 0xffff_ffff_ffff_ffff <= 0xffff_ffff_ffff_ffff * 0xffff_ffff_ffff_ffff)
            by (nonlinear_arith)
            requires
                i <= 0xffff_ffff_ffff_ffff,
        ;
        assert(record_views(records@)[i as int] == records@[i as int]@);
        if records[i].header.section_type == kind {
            total = total + records[i].header.payload_len as u128;
        }
        i = i + 1;
    }
    total
}

fn count_blocks(records: &[SectionRecord]) -> (r: usize)
    ensures
        r == block_total(record_views(records@), records@.len()),
{
    let mut total: usize = 0;
    let mut i: usize = 0;
    while i < records.len()
        invariant
            i <= records@.len(),
            total <= i,
            total == block_total(record_views(records@), i as nat),
        decreases records@.len() - i,
    {
        assert(record_views(records@)[i as int] == records@[i as int]@);
        if records[i].header.section_type == SectionType::Block {
            total = total + 1;
        }
        i = i + 1;
    }
    total
}

spec fn totals_view(v: Seq<(u16, u128)>) -> Seq<(u16, nat)> {
    v.map_values(|e: (u16, u128)| (e.0, e.1 as nat))
}

fn collect_unknown(records: &[SectionRecord]) -> (r: Vec<(u16, u128)>)
    ensures
        totals_view(r@) == unknown_totals(record_views(records@), records@.len()),
{
    let count: usize = records.len();
    let mut out: Vec<(u16, u128)> = Vec::new();
    assert(totals_view(out@) =~= Seq::<(u16, nat)>::empty());
    let mut i: usize = 0;
    while i < count
        invariant
            i <= count == records@.len(),
            totals_view(out@) == unknown_totals(record_views(records@), i as nat),
            forall|j: int|
                0 <= j < out@.len() ==> (#[trigger] out@[j]).1 <= i * 0xffff_ffff_ffff_ffff,
        decreases count - i,
    {
        assert(i * 0xffff_ffff_ffff_ffff <= 0xffff_ffff_ffff_ffff * 0xffff_ffff_ffff_ffff)
            by (nonlinear_arith)
            requires
                i <= 0xffff_ffff_ffff_ffff,
        ;
        assert((i + 1) * 0xffff_ffff_ffff_ffff == i * 0xffff_ffff_ffff_ffff + 0xffff_ffff_ffff_ffff)
            by (nonlinear_arith);
        assert(record_views(records@)[i as int] == records@[i as int]@);
        if let SectionType::Unknown(value) = records[i].header.section_type {
            let len: u64 = records[i].header.payload_len;
            let ghost before = totals_view(out@);
            let mut k: usize = 0;
            let ghost want = with_unknown(before, value, len as nat, 0);
            while k < out.len() && out[k].0 != value
                invariant
                    k <= out@.len(),
                    before == totals_view(out@),
                    want == with_unknown(before, value, len as nat, k as nat),
                decreases out@.len() - k,
            {
                assert(before[k as int].0 == out@[k as int].0);
                k = k + 1;
            }
            if k < out.len() {
                let more: u128 = out[k].1 + len as u128;
                out[k] = (value, more);
                assert(totals_view(out@) =~= want);
            } else {
                out.push((value, len as u128));
                assert(totals_view(out@) =~= want);
            }
        }
        i = i + 1;
    }
    out
}

/// Decoded size of the first section of a type, when it decodes.
pub fn decoded_len<S: ImageSource>(image: &Image<S>, kind: SectionType) -> (r: Option<usize>)
    ensures
        r matches Some(n) ==> decoded_size(image@, kind) == Some(n as nat),
        image.reliable() && r is None ==> decoded_size(image@, kind) is None,
{
    match image.find_section(kind) {
        None => None,
        Some(record) => match image.decompress_section(record, 0x4000_0000) {
            Ok(bytes) => Some(bytes.len()),
            Err(_) => None,
        },
    }
}

fn push_sections<S: ImageSource>(t: Text, image: &Image<S>) -> (r: Text)
    ensures
        r@ == t@ + section_lines(image@.sections, 0),
{
    let records: &[SectionRecord] = image.sections();
    let ghost v = image@;
    let ghost start = t@;
    let ghost want = start + section_lines(v.sections, 0);
    let mut out = t;
    let mut i: usize = 0;
    while i < records.len()
        invariant
            i <= records@.len() == v.sections.len(),
            v == image@,
            record_views(records@) == v.sections,
            want == out@ + section_lines(v.sections, i as nat),
        decreases records@.len() - i,
    {
        let r: SectionRecord = records[i];
        assert(v.sections[i as int] == r@);
        let len: u128 = 64 + r.header.payload_len as u128;
        let end: u128 = r.file_offset as u128 + len;
        let ghost before = out@;
        let ghost rest = section_lines(v.sections, (i + 1) as nat);
        let line: String = Text::of("  [").num(i as u64).str("] type=").str(
            r.header.section_type.describe().as_str(),
        ).str(" compression=").str(r.header.compression.describe().as_str()).str(" number=").num(
            r.header.number as u64,
        ).str(" offset=").num(r.file_offset).str(" len=").wide(len).str(" end=").wide(end).str(
            "\n",
        ).done();
        assert(line@ == section_line(r@, i as nat));
        out = out.str(line.as_str());
        assert(before + (line@ + rest) =~= out@ + rest);
        i = i + 1;
    }
    assert(out@ + Seq::<char>::empty() =~= out@);
    out
}

fn push_unknown(t: Text, totals: &Vec<(u16, u128)>) -> (r: Text)
    ensures
        r@ == t@ + unknown_lines(totals_view(totals@), 0),
{
    let ghost want = t@ + unknown_lines(totals_view(totals@), 0);
    let mut out = t;
    let mut i: usize = 0;
    while i < totals.len()
        invariant
            i <= totals@.len(),
            want == out@ + unknown_lines(totals_view(totals@), i as nat),
        decreases totals@.len() - i,
    {
        let ghost before = out@;
        let ghost rest = unknown_lines(totals_view(totals@), (i + 1) as nat);
        let line: String = Text::of("Unknown section type ").num(totals[i].0 as u64).str(
            ": ",
        ).wide(totals[i].1).str(" bytes\n").done();
        out = out.str(line.as_str());
        assert(before + (line@ + rest) =~= out@ + rest);
        i = i + 1;
    }
    assert(out@ + Seq::<char>::empty() =~= out@);
    out
}

fn some_if_nonzero(n: u128) -> (r: Option<u128>)
    ensures
        (match r {
            Some(n) => Some(n as nat),
            None => None,
        }) == nonzero(n as nat),
{
    if n > 0 {
        Some(n)
    } else {
        None
    }
}

/// The summary of an image's sections, given the decoded sizes of the
/// metadata and of its schema.
pub fn render_summary<S: ImageSource>(
    image: &Image<S>,
    metadata: Option<usize>,
    schema: Option<usize>,
    detail: u32,
) -> (r: String)
    ensures
        r@ == summary_text(image@, size_view(metadata), size_view(schema), detail),
{
    let records: &[SectionRecord] = image.sections();
    let ghost v = image@;
    let ghost s = v.sections;
    let mut t = Text::empty();
    if records.len() > 0 {
        assert(s[0] == records@[0]@);
        t = t.str("DwarFS version: ").num(records[0].header.major as u64).str(".").num(
            records[0].header.minor as u64,
        ).str("\n");
        assert(t@ =~= "DwarFS version: "@ + dec(s[0].header.major as nat) + "."@ + dec(
            s[0].header.minor as nat,
        ) + "\n"@);
    }
    t = push_line(t, "DwarFS image: ", image.len() as u128, " bytes\n");
    t = push_line(t, "Sections: ", records.len() as u128, "\n");
    t = push_line(t, "Block count: ", count_blocks(records) as u128, "\n");
    t = push_line(
        t,
        "Compressed block size: ",
        total_payload(records, SectionType::Block),
        " bytes\n",
    );
    t = push_line(
        t,
        "Compressed metadata size: ",
        total_payload(records, SectionType::MetadataV2),
        " bytes\n",
    );
    t = push_optional(t, "Uncompressed metadata size: ", widen(metadata), " bytes\n");
    t = push_line(
        t,
        "Compressed schema size: ",
        total_payload(records, SectionType::MetadataV2Schema),
        " bytes\n",
    );
    t = push_optional(t, "Uncompressed schema size: ", widen(schema), " bytes\n");
    t = push_optional(
        t,
        "Compressed history size: ",
        some_if_nonzero(total_payload(records, SectionType::History)),
        " bytes\n",
    );
    t = push_unknown(t, &collect_unknown(records));
    t = push_optional(
        t,
        "Header prefix: ",
        some_if_nonzero(image.base_offset() as u128),
        " bytes\n",
    );
    let ghost before = t@;
    if detail >= 2 {
        t = push_sections(t, image);
    } else {
        assert(before + Seq::<char>::empty() =~= before);
    }
    let ghost before = t@;
    if image.section_index().is_some() {
        t = t.str("Section index: present\n");
    } else {
        assert(before + Seq::<char>::empty() =~= before);
    }
    t.done()
}

/// A size as a number.
pub open spec fn size_view(n: Option<usize>) -> Option<nat> {
    match n {
        Some(n) => Some(n as nat),
        None => None,
    }
}

fn widen(n: Option<usize>) -> (r: Option<u128>)
    ensures
        (match r {
            Some(n) => Some(n as nat),
            None => None,
        }) == size_view(n),
{
    match n {
        Some(n) => Some(n as u128),
        None => None,
    }
}

/// The summary of an image's sections.
pub fn summary<S: ImageSource>(image: &Image<S>, detail: u32) -> (r: String)
    ensures
        image.reliable() ==> r@ == summary_text(
            image@,
            decoded_size(image@, SectionType::MetadataV2),
            decoded_size(image@, SectionType::MetadataV2Schema),
            detail,
        ),
        exists|m: Option<nat>, s: Option<nat>|
            #![trigger summary_text(image@, m, s, detail)]
            r@ == summary_text(image@, m, s, detail) && (m is None || m == decoded_size(
                image@,
                SectionType::MetadataV2,
            )) && (s is None || s == decoded_size(image@, SectionType::MetadataV2Schema)),
{
    let metadata: Option<usize> = decoded_len(image, SectionType::MetadataV2);
    let schema: Option<usize> = decoded_len(image, SectionType::MetadataV2Schema);
    render_summary(image, metadata, schema, detail)
}

} // verus!
